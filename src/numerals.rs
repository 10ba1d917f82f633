//! Japanese numerals (一 … 九, 十 百 千, 万 億) and the old units of length.

use vstd::prelude::*;

verus! {

/// One numeral character: a digit, a power of ten below ten thousand, or a
/// myriad (ten thousand or a hundred million).
#[derive(Debug, PartialEq, Eq, Clone, Copy, Structural)]
pub enum NumberPart {
    Base(u128),
    Power(u128),
    Myriad(u128),
}

/// A character that is neither a numeral nor a unit.
#[derive(Debug, PartialEq, Eq, Clone, Copy, Structural)]
pub struct InvalidCharacterError(pub char);

pub open spec fn part_of(c: char) -> Option<NumberPart> {
    if c == '一' {
        Some(NumberPart::Base(1))
    } else if c == '二' {
        Some(NumberPart::Base(2))
    } else if c == '三' {
        Some(NumberPart::Base(3))
    } else if c == '四' {
        Some(NumberPart::Base(4))
    } else if c == '五' {
        Some(NumberPart::Base(5))
    } else if c == '六' {
        Some(NumberPart::Base(6))
    } else if c == '七' {
        Some(NumberPart::Base(7))
    } else if c == '八' {
        Some(NumberPart::Base(8))
    } else if c == '九' {
        Some(NumberPart::Base(9))
    } else if c == '十' {
        Some(NumberPart::Power(10))
    } else if c == '百' {
        Some(NumberPart::Power(100))
    } else if c == '千' {
        Some(NumberPart::Power(1000))
    } else if c == '万' {
        Some(NumberPart::Myriad(10000))
    } else if c == '億' {
        Some(NumberPart::Myriad(100000000))
    } else {
        None
    }
}

/// Length units as multiples of the smallest, 毛.
pub open spec fn unit_of(c: char) -> Option<u128> {
    if c == '毛' {
        Some(1u128)
    } else if c == '厘' {
        Some(10u128)
    } else if c == '分' {
        Some(100u128)
    } else if c == '寸' {
        Some(1000u128)
    } else if c == '尺' {
        Some(10000u128)
    } else if c == '間' {
        Some(60000u128)
    } else if c == '丈' {
        Some(100000u128)
    } else if c == '町' {
        Some(3600000u128)
    } else if c == '里' {
        Some(129600000u128)
    } else {
        None
    }
}

pub open spec fn at_least_one(x: int) -> int {
    if x < 1 {
        1
    } else {
        x
    }
}

/// Reading one numeral into the three accumulators: the finished myriad
/// groups, the finished terms of the current group, and the pending digit.
pub open spec fn read_part(acc: (int, int, int), p: NumberPart) -> (int, int, int) {
    match p {
        NumberPart::Base(n) => (acc.0, acc.1 + acc.2, n as int),
        NumberPart::Power(n) => (acc.0, acc.1 + at_least_one(acc.2) * n, 0),
        NumberPart::Myriad(n) => (acc.0 + at_least_one(acc.1 + acc.2) * n, 0, 0),
    }
}

/// The accumulators after reading every character, all numerals.
pub open spec fn read_all(cs: Seq<char>) -> (int, int, int)
    decreases cs.len(),
{
    if cs.len() == 0 {
        (0, 0, 0)
    } else {
        read_part(read_all(cs.drop_last()), part_of(cs.last()).unwrap())
    }
}

/// The first character that is no numeral.
pub open spec fn first_non_numeral(cs: Seq<char>) -> Option<char>
    decreases cs.len(),
{
    if cs.len() == 0 {
        None
    } else if part_of(cs[0]) is None {
        Some(cs[0])
    } else {
        first_non_numeral(cs.drop_first())
    }
}

/// The value that a string of numerals writes.
pub open spec fn numeral_value(cs: Seq<char>) -> int {
    let a = read_all(cs);
    a.0 + a.1 + a.2
}

impl NumberPart {
    /// The numeral that a character is.
    pub fn from_char(value: char) -> (r: Result<NumberPart, InvalidCharacterError>)
        ensures
            r == match part_of(value) {
                Some(p) => Ok(p),
                None => Err(InvalidCharacterError(value)),
            },
    {
        match value {
            '一' => Ok(NumberPart::Base(1)),
            '二' => Ok(NumberPart::Base(2)),
            '三' => Ok(NumberPart::Base(3)),
            '四' => Ok(NumberPart::Base(4)),
            '五' => Ok(NumberPart::Base(5)),
            '六' => Ok(NumberPart::Base(6)),
            '七' => Ok(NumberPart::Base(7)),
            '八' => Ok(NumberPart::Base(8)),
            '九' => Ok(NumberPart::Base(9)),
            '十' => Ok(NumberPart::Power(10)),
            '百' => Ok(NumberPart::Power(100)),
            '千' => Ok(NumberPart::Power(1000)),
            '万' => Ok(NumberPart::Myriad(10000)),
            '億' => Ok(NumberPart::Myriad(100000000)),
            other => Err(InvalidCharacterError(other)),
        }
    }
}

proof fn lemma_part_bounds(c: char)
    ensures
        match part_of(c) {
            Some(NumberPart::Base(n)) => 1 <= n <= 9,
            Some(NumberPart::Power(n)) => 10 <= n <= 1000,
            Some(NumberPart::Myriad(n)) => 10000 <= n <= 100000000,
            None => true,
        },
{
}

proof fn lemma_first_non_numeral_prefix(cs: Seq<char>, i: int)
    requires
        0 <= i <= cs.len(),
        forall|k: int| 0 <= k < i ==> part_of(#[trigger] cs[k]) is Some,
    ensures
        first_non_numeral(cs) == first_non_numeral(cs.subrange(i, cs.len() as int)),
    decreases i,
{
    if i > 0 {
        assert(cs.drop_first().subrange(i - 1, cs.drop_first().len() as int) =~= cs.subrange(
            i,
            cs.len() as int,
        ));
        assert forall|k: int| 0 <= k < i - 1 implies part_of(#[trigger] cs.drop_first()[k]) is Some by {
            assert(part_of(cs[k + 1]) is Some);
        }
        lemma_first_non_numeral_prefix(cs.drop_first(), i - 1);
    } else {
        assert(cs.subrange(0, cs.len() as int) =~= cs);
    }
}

/// The value of a string of numerals such as 九万九千九百九十九; the first
/// character that is no numeral is an error. The length bound keeps every
/// accumulator within 128 bits.
pub fn parse_number(value: &[char]) -> (r: Result<u128, InvalidCharacterError>)
    requires
        value@.len() <= 0xFFFF_FFFF,
    ensures
        r == match first_non_numeral(value@) {
            Some(c) => Err(InvalidCharacterError(c)),
            None => Ok(numeral_value(value@) as u128),
        },
{
    let ghost cs = value@;
    let mut a0: u128 = 0;
    let mut a1: u128 = 0;
    let mut a2: u128 = 0;
    let mut i: usize = 0;
    assert(cs.take(0) =~= Seq::<char>::empty());
    while i < value.len()
        invariant
            cs == value@,
            cs.len() <= 0xFFFF_FFFF,
            i <= cs.len(),
            forall|k: int| 0 <= k < i ==> part_of(#[trigger] cs[k]) is Some,
            read_all(cs.take(i as int)) == (a0 as int, a1 as int, a2 as int),
            a2 <= 9,
            a1 <= 10000 * i,
            a0 <= 1_000_000_000_000 * i * i,
        decreases cs.len() - i,
    {
        assert(cs.take(i as int + 1).drop_last() =~= cs.take(i as int));
        proof {
            lemma_part_bounds(cs[i as int]);
        }
        let part = match NumberPart::from_char(value[i]) {
            Ok(p) => p,
            Err(e) => {
                proof {
                    lemma_first_non_numeral_prefix(cs, i as int);
                }
                return Err(e);
            },
        };
        match part {
            NumberPart::Base(n) => {
                a1 = a1 + a2;
                a2 = n;
            },
            NumberPart::Power(n) => {
                let m: u128 = if a2 < 1 {
                    1
                } else {
                    a2
                };
                assert(m * n <= 9000) by (nonlinear_arith)
                    requires
                        1 <= m <= 9,
                        n <= 1000,
                ;
                a1 = a1 + m * n;
                a2 = 0;
            },
            NumberPart::Myriad(n) => {
                let s = a1 + a2;
                let m: u128 = if s < 1 {
                    1
                } else {
                    s
                };
                assert(a0 + m * n <= 1_000_000_000_000 * (i + 1) * (i + 1)) by (nonlinear_arith)
                    requires
                        a0 <= 1_000_000_000_000 * i * i,
                        m <= 10000 * i + 9,
                        1 <= m,
                        n <= 100000000,
                ;
                assert(1_000_000_000_000 * (i + 1) * (i + 1) <= 0xFFFF_FFFF_FFFF_FFFF_FFFF_FFFF_FFFF_FFFF) by (nonlinear_arith)
                    requires
                        i < 0xFFFF_FFFF,
                ;
                a0 = a0 + m * n;
                a1 = 0;
                a2 = 0;
            },
        }
        assert(1_000_000_000_000 * i * i <= 1_000_000_000_000 * (i + 1) * (i + 1)) by (nonlinear_arith);
        i += 1;
    }
    assert(cs.take(cs.len() as int) =~= cs);
    proof {
        lemma_first_non_numeral_prefix(cs, cs.len() as int);
        assert(cs.subrange(cs.len() as int, cs.len() as int).len() == 0);
        let n = cs.len();
        assert(a0 + a1 + a2 <= u128::MAX) by (nonlinear_arith)
            requires
                a0 <= 1_000_000_000_000 * n * n,
                a1 <= 10000 * n,
                a2 <= 9,
                n <= 0xFFFF_FFFF,
        ;
    }
    Ok(a0 + a1 + a2)
}

/// The size of a length unit in 毛; anything else is an error.
pub fn parse_unit(value: char) -> (r: Result<u128, InvalidCharacterError>)
    ensures
        r == match unit_of(value) {
            Some(u) => Ok(u),
            None => Err(InvalidCharacterError(value)),
        },
{
    match value {
        '毛' => Ok(1),
        '厘' => Ok(10),
        '分' => Ok(100),
        '寸' => Ok(1000),
        '尺' => Ok(10_000),
        '間' => Ok(6 * 10_000),
        '丈' => Ok(10 * 10_000),
        '町' => Ok(360 * 10_000),
        '里' => Ok(12_960 * 10_000),
        other => Err(InvalidCharacterError(other)),
    }
}

} // verus!

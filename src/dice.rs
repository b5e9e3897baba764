//! Dice notation: `NdM+K` — `N` dice of `M` sides, plus or minus `K`.
use vstd::prelude::*;

verus! {

/// A parsed dice expression.
#[derive(Clone, Copy, Debug, PartialEq, Eq, Structural)]
pub struct DiceRoll {
    pub count: i32,
    pub sides: i32,
    pub modifier: i32,
}

pub open spec fn is_digit(b: u8) -> bool {
    48 <= b <= 57
}

/// The decimal value of a string of digits.
pub open spec fn digits_value(s: Seq<u8>) -> int
    decreases s.len(),
{
    if s.len() == 0 {
        0
    } else {
        10 * digits_value(s.drop_last()) + (s.last() - 48)
    }
}

/// `s` is a non-empty string of digits whose value fits in an `i32`.
pub open spec fn is_number(s: Seq<u8>) -> bool {
    &&& s.len() >= 1
    &&& forall|i: int| 0 <= i < s.len() ==> is_digit(#[trigger] s[i])
    &&& digits_value(s) <= i32::MAX
}

/// The first index at or after `from` whose byte is `b` or, when `sign`
/// holds, a `+` or `-`; `s.len()` when there is none. The modifier sign is
/// found with `b` set to `+` itself.
pub open spec fn first_of(s: Seq<u8>, from: int, b: u8, sign: bool) -> int
    decreases s.len() - from,
{
    if from >= s.len() {
        s.len() as int
    } else if s[from] == b || (sign && (s[from] == 43 || s[from] == 45)) {
        from
    } else {
        first_of(s, from + 1, b, sign)
    }
}

/// The dice expression that `s` spells, if any: an optional count (one
/// when absent), `d`, the number of sides, and an optional `+K` or `-K`.
/// Every number is a run of decimal digits that fits in an `i32`.
pub open spec fn dice_of(s: Seq<u8>) -> Option<DiceRoll> {
    let i = first_of(s, 0, 100, false);
    let k = first_of(s, i + 1, 43, true);
    let head = s.subrange(0, i);
    let sides = s.subrange(i + 1, k);
    let tail = s.subrange(k + 1, s.len() as int);
    if i < s.len() && (head.len() == 0 || is_number(head)) && is_number(sides) && (k == s.len()
        || is_number(tail)) {
        Some(
            DiceRoll {
                count: if head.len() == 0 {
                    1
                } else {
                    digits_value(head) as i32
                },
                sides: digits_value(sides) as i32,
                modifier: if k == s.len() {
                    0
                } else if s[k] == 43 {
                    digits_value(tail) as i32
                } else {
                    -digits_value(tail) as i32
                },
            },
        )
    } else {
        None
    }
}

/// A roll of `d` can be made and its total fits in an `i32`: at least one
/// side, and both the smallest and the largest total in range.
pub open spec fn dice_fits(d: DiceRoll) -> bool {
    &&& d.sides >= 1
    &&& d.count >= 0
    &&& d.count * d.sides + d.modifier <= i32::MAX
    &&& d.count + d.modifier >= i32::MIN
}

fn first_index(s: &[u8], from: usize, b: u8, sign: bool) -> (r: usize)
    requires
        from <= s@.len(),
    ensures
        r == first_of(s@, from as int, b, sign),
        from <= r <= s@.len(),
    decreases s@.len() - from,
{
    let mut j = from;
    while j < s.len()
        invariant
            from <= j <= s@.len(),
            first_of(s@, j as int, b, sign) == first_of(s@, from as int, b, sign),
        decreases s@.len() - j,
    {
        if s[j] == b || (sign && (s[j] == 43 || s[j] == 45)) {
            return j;
        }
        j = j + 1;
    }
    j
}

/// The value of `s[lo..hi]` when it is a number.
fn parse_number(s: &[u8], lo: usize, hi: usize) -> (r: Option<i32>)
    requires
        lo <= hi <= s@.len(),
    ensures
        r is Some <==> is_number(s@.subrange(lo as int, hi as int)),
        r matches Some(v) ==> v == digits_value(s@.subrange(lo as int, hi as int)) && v >= 0,
{
    if lo == hi {
        return None;
    }
    let cap: u64 = 0x8000_0000;
    let mut acc: u64 = 0;
    let mut j = lo;
    while j < hi
        invariant
            lo <= j <= hi <= s@.len(),
            cap == 0x8000_0000,
            forall|i: int| lo <= i < j ==> is_digit(#[trigger] s@[i]),
            acc == if digits_value(s@.subrange(lo as int, j as int)) < cap {
                digits_value(s@.subrange(lo as int, j as int))
            } else {
                cap as int
            },
        decreases hi - j,
    {
        let c = s[j];
        if c < 48 || c > 57 {
            assert(!is_digit(s@.subrange(lo as int, hi as int)[j - lo]));
            return None;
        }
        assert(s@.subrange(lo as int, j as int + 1).drop_last() =~= s@.subrange(lo as int, j as int));
        let next = acc * 10 + (c - 48) as u64;
        acc = if next < cap { next } else { cap };
        j = j + 1;
    }
    assert forall|i: int| 0 <= i < (hi - lo) implies is_digit(#[trigger] s@.subrange(lo as int, hi as int)[i]) by {
        assert(s@.subrange(lo as int, hi as int)[i] == s@[lo + i]);
    }
    if acc < cap {
        Some(acc as i32)
    } else {
        None
    }
}

/// Reads a dice expression from the bytes of `s`.
pub fn parse_dice(s: &[u8]) -> (r: Option<DiceRoll>)
    ensures
        r == dice_of(s@),
{
    let i = first_index(s, 0, 100, false);
    if i == s.len() {
        return None;
    }
    let k = first_index(s, i + 1, 43, true);
    let count = if i == 0 {
        1
    } else {
        match parse_number(s, 0, i) {
            Some(v) => v,
            None => {
                return None;
            },
        }
    };
    let sides = match parse_number(s, i + 1, k) {
        Some(v) => v,
        None => {
            return None;
        },
    };
    let modifier = if k == s.len() {
        0
    } else {
        match parse_number(s, k + 1, s.len()) {
            Some(v) => if s[k] == 43 {
                v
            } else {
                -v
            },
            None => {
                return None;
            },
        }
    };
    Some(DiceRoll { count, sides, modifier })
}

/// The sum of a sequence of rolls.
pub open spec fn roll_sum(rolls: Seq<i32>) -> int
    decreases rolls.len(),
{
    if rolls.len() == 0 {
        0
    } else {
        roll_sum(rolls.drop_last()) + rolls.last()
    }
}

/// The total of a roll: the sum of the dice drawn plus the modifier.
pub fn dice_total(rolls: &Vec<i32>, modifier: i32) -> (r: i32)
    requires
        forall|i: int| 0 <= i < rolls@.len() ==> 0 <= #[trigger] rolls@[i],
        i32::MIN <= roll_sum(rolls@) + modifier <= i32::MAX,
        roll_sum(rolls@) <= 0x1_0000_0000,
    ensures
        r == roll_sum(rolls@) + modifier,
{
    let mut total: i64 = 0;
    let mut i: usize = 0;
    while i < rolls.len()
        invariant
            i <= rolls@.len(),
            forall|j: int| 0 <= j < rolls@.len() ==> 0 <= #[trigger] rolls@[j],
            roll_sum(rolls@) <= 0x1_0000_0000,
            total == roll_sum(rolls@.take(i as int)),
        decreases rolls@.len() - i,
    {
        assert(rolls@.take(i as int + 1).drop_last() =~= rolls@.take(i as int));
        proof {
            lemma_roll_sum_prefix(rolls@, i as int + 1);
        }
        total = total + rolls[i] as i64;
        i = i + 1;
    }
    assert(rolls@.take(i as int) =~= rolls@);
    (total + modifier as i64) as i32
}

/// With no negative roll, a prefix sums to no more than the whole.
pub proof fn lemma_roll_sum_prefix(rolls: Seq<i32>, k: int)
    requires
        0 <= k <= rolls.len(),
        forall|i: int| 0 <= i < rolls.len() ==> 0 <= #[trigger] rolls[i],
    ensures
        0 <= roll_sum(rolls.take(k)) <= roll_sum(rolls),
    decreases rolls.len(),
{
    if rolls.len() > 0 {
        if k == rolls.len() {
            assert(rolls.take(k) =~= rolls);
            lemma_roll_sum_prefix(rolls.drop_last(), k - 1);
            assert(rolls.drop_last().take(k - 1) =~= rolls.drop_last());
        } else {
            assert(rolls.drop_last().take(k) =~= rolls.take(k));
            lemma_roll_sum_prefix(rolls.drop_last(), k);
        }
    }
}

} // verus!

//! One fragment of the picture: its rows of bytes, the border roles it may
//! play, and the fingerprints of its left and right edges.

use vstd::prelude::*;
use vstd::utf8::{decode_utf8, valid_utf8};
use vstd::arithmetic::div_mod::{lemma_fundamental_div_mod_converse_div, lemma_fundamental_div_mod_converse_mod};
use itertools::Itertools;
use crate::utf8::{
    begins_character, continuation, decode_string, is_continuation_byte, sequence_size,
    size_of_lead,
};

verus! {

/// A rectangular piece of the picture, one byte row per line.
pub struct MapPiece {
    pub bytes: Vec<Vec<u8>>,
}

impl View for MapPiece {
    type V = Seq<Seq<u8>>;

    open spec fn view(&self) -> Seq<Seq<u8>> {
        self.bytes@.map_values(|row: Vec<u8>| row@)
    }
}

/// The row begins with the three bytes `a`, `b`, `c`.
pub open spec fn opens_with(row: Seq<u8>, a: u8, b: u8, c: u8) -> bool {
    row.len() >= 3 && row[0] == a && row[1] == b && row[2] == c
}

/// The row begins with a vertical border: `|` or `║` (`E2 95 91`).
pub open spec fn opens_with_vertical_border(row: Seq<u8>) -> bool {
    (row.len() >= 1 && row[0] == 0x7C) || opens_with(row, 0xE2, 0x95, 0x91)
}

/// The row is well-formed UTF-8 made only of `-` and `═`.
pub open spec fn horizontal_border(row: Seq<u8>) -> bool {
    valid_utf8(row) && forall|k: int|
        0 <= k < decode_utf8(row).len() ==> (#[trigger] decode_utf8(row)[k] == '-' || decode_utf8(
            row,
        )[k] == '═')
}

/// The fragment's first row opens with the top-left corner `╔` (`E2 95 94`).
pub open spec fn top_left_role(p: Seq<Seq<u8>>) -> bool {
    p.len() > 0 && opens_with(p[0], 0xE2, 0x95, 0x94)
}

/// The fragment's last row opens with the bottom-left corner `╚` (`E2 95 9A`).
pub open spec fn bottom_left_role(p: Seq<Seq<u8>>) -> bool {
    p.len() > 0 && opens_with(p.last(), 0xE2, 0x95, 0x9A)
}

/// The fragment's first row is a horizontal border.
pub open spec fn top_role(p: Seq<Seq<u8>>) -> bool {
    p.len() > 0 && horizontal_border(p[0])
}

/// Every row of the fragment opens with a vertical border.
pub open spec fn left_role(p: Seq<Seq<u8>>) -> bool {
    forall|k: int| 0 <= k < p.len() ==> opens_with_vertical_border(#[trigger] p[k])
}

/// Number of continuation bytes at the start of a row.
pub open spec fn leading_continuations(row: Seq<u8>) -> nat
    decreases row.len(),
{
    if row.len() > 0 && continuation(row[0]) {
        1 + leading_continuations(row.drop_first())
    } else {
        0
    }
}

/// Number of continuation bytes at the end of a row.
pub open spec fn trailing_continuations(row: Seq<u8>) -> nat
    decreases row.len(),
{
    if row.len() > 0 && continuation(row.last()) {
        1 + trailing_continuations(row.drop_last())
    } else {
        0
    }
}

/// How many bytes of the row's last character lie beyond its end: the length
/// announced by the last byte that begins a character, less the bytes that
/// follow it in the row. Zero when nothing is missing, when no byte begins a
/// character, or when that byte announces no length.
pub open spec fn missing_after(row: Seq<u8>) -> nat {
    let t = trailing_continuations(row);
    if t < row.len() {
        match size_of_lead(row[row.len() - 1 - t]) {
            Some(s) => if s >= t + 1 {
                (s - 1 - t) as nat
            } else {
                0
            },
            None => 0,
        }
    } else {
        0
    }
}

pub open spec fn pow4(n: nat) -> nat
    decreases n,
{
    if n == 0 {
        1
    } else {
        4 * pow4((n - 1) as nat)
    }
}

/// Two bits per value, value `i` at bits `2i` and `2i + 1`, each value taken
/// modulo 4; values from the sixteenth on fall outside 32 bits and are lost.
pub open spec fn pack(vals: Seq<nat>) -> nat
    decreases vals.len(),
{
    if vals.len() == 0 {
        0
    } else {
        let i = (vals.len() - 1) as nat;
        pack(vals.drop_last()) + if i < 16 {
            (vals.last() % 4) * pow4(i)
        } else {
            0
        }
    }
}

/// The rows of block `bi` when blocks are `bs` rows tall; a block that runs
/// past the last row is cut short.
pub open spec fn block(rows: Seq<Seq<u8>>, bi: nat, bs: nat) -> Seq<Seq<u8>> {
    let start = if bi * bs < rows.len() {
        bi * bs
    } else {
        rows.len() as nat
    };
    let end = if start + bs < rows.len() {
        start + bs
    } else {
        rows.len() as nat
    };
    rows.subrange(start as int, end as int)
}

/// Fingerprint of a block's left edge.
pub open spec fn left_key(rows: Seq<Seq<u8>>, bi: nat, bs: nat) -> nat {
    pack(block(rows, bi, bs).map_values(|row: Seq<u8>| leading_continuations(row)))
}

/// Fingerprint of a block's right edge.
pub open spec fn right_key(rows: Seq<Seq<u8>>, bi: nat, bs: nat) -> nat {
    pack(block(rows, bi, bs).map_values(|row: Seq<u8>| missing_after(row)))
}

proof fn lemma_pow4_bound(n: nat)
    requires
        n <= 16,
    ensures
        1 <= pow4(n) <= pow4(16),
        pow4(16) == 0x1_0000_0000,
    decreases 16 - n,
{
    reveal_with_fuel(pow4, 17);
    if n < 16 {
        lemma_pow4_bound(n + 1);
    }
}

proof fn lemma_pack_step(vals: Seq<nat>, i: int)
    requires
        0 <= i < vals.len(),
    ensures
        pack(vals.take(i + 1)) == pack(vals.take(i)) + if i < 16 {
            (vals[i] % 4) * pow4(i as nat)
        } else {
            0
        },
{
    assert(vals.take(i + 1).drop_last() =~= vals.take(i));
}

proof fn lemma_leading_step(row: Seq<u8>, j: int)
    requires
        0 <= j < row.len(),
    ensures
        leading_continuations(row.subrange(j, row.len() as int)) == if continuation(row[j]) {
            1 + leading_continuations(row.subrange(j + 1, row.len() as int))
        } else {
            0
        },
{
    assert(row.subrange(j, row.len() as int).drop_first() =~= row.subrange(
        j + 1,
        row.len() as int,
    ));
}

proof fn lemma_trailing(row: Seq<u8>, i: int)
    requires
        0 <= i <= row.len(),
        forall|k: int| 0 <= k < i ==> continuation(#[trigger] row[row.len() - 1 - k]),
        i == row.len() || !continuation(row[row.len() - 1 - i]),
    ensures
        trailing_continuations(row) == i,
    decreases row.len(),
{
    if i > 0 {
        let d = row.drop_last();
        assert(continuation(row[row.len() - 1 - 0]));
        assert forall|k: int| 0 <= k < i - 1 implies continuation(#[trigger] d[d.len() - 1 - k]) by {
            assert(continuation(row[row.len() - 1 - (k + 1)]));
        }
        lemma_trailing(d, i - 1);
    }
}


proof fn lemma_pow4_add(a: nat, b: nat)
    ensures
        pow4(a + b) == pow4(a) * pow4(b),
    decreases a,
{
    if a > 0 {
        lemma_pow4_add((a - 1) as nat, b);
        assert(pow4(a + b) == 4 * pow4((a - 1 + b) as nat));
        assert(pow4(a) == 4 * pow4((a - 1) as nat));
        assert(4 * (pow4((a - 1) as nat) * pow4(b)) == (4 * pow4((a - 1) as nat)) * pow4(b))
            by (nonlinear_arith);
    } else {
        assert(pow4(0) == 1);
        assert(a + b == b);
    }
}

proof fn lemma_pack_zero(vals: Seq<nat>)
    requires
        forall|k: int| 0 <= k < vals.len() ==> #[trigger] vals[k] == 0,
    ensures
        pack(vals) == 0,
    decreases vals.len(),
{
    if vals.len() > 0 {
        lemma_pack_zero(vals.drop_last());
    }
}

proof fn lemma_pack_bound(vals: Seq<nat>)
    ensures
        pack(vals) < pow4(if vals.len() <= 16 { vals.len() } else { 16 }),
    decreases vals.len(),
{
    if vals.len() > 0 {
        let i = (vals.len() - 1) as nat;
        lemma_pack_bound(vals.drop_last());
        if i < 16 {
            let d = vals.last() % 4;
            let p = pow4(i);
            assert(d * p <= 3 * p) by (nonlinear_arith)
                requires
                    d <= 3,
            ;
        }
    }
}

/// `pack(vals.take(m))` split around value `i`: what lies below, digit `i`,
/// and a multiple of `4^(i+1)` above.
proof fn lemma_pack_split(vals: Seq<nat>, i: nat, m: nat) -> (hi: nat)
    requires
        i < 16,
        i < m <= vals.len(),
    ensures
        pack(vals.take(m as int)) == pack(vals.take(i as int)) + (vals[i as int] % 4) * pow4(i) + pow4(i + 1) * hi,
    decreases m,
{
    lemma_pack_step(vals, (m - 1) as int);
    if m == i + 1 {
        0
    } else {
        let lo = lemma_pack_split(vals, i, (m - 1) as nat);
        let j = (m - 1) as nat;
        if j < 16 {
            let e = (j - i - 1) as nat;
            lemma_pow4_add(i + 1, e);
            let d = vals[j as int] % 4;
            let p = pow4(i + 1);
            let q = pow4(e);
            assert(p * lo + d * (p * q) == p * (lo + d * q)) by (nonlinear_arith);
            lo + d * q
        } else {
            lo
        }
    }
}

/// Digit `i` (bits `2i`, `2i + 1`) of a packed key is value `i` modulo 4.
proof fn lemma_pack_digit(vals: Seq<nat>, i: nat)
    requires
        i < 16,
        i < vals.len(),
    ensures
        (pack(vals) / pow4(i)) % 4 == vals[i as int] % 4,
{
    let hi = lemma_pack_split(vals, i, vals.len());
    assert(vals.take(vals.len() as int) =~= vals);
    let low = pack(vals.take(i as int));
    lemma_pack_bound(vals.take(i as int));
    let p = pow4(i);
    lemma_pow4_bound(i);
    let d = vals[i as int] % 4;
    assert(pow4(i + 1) == 4 * p);
    assert(pack(vals) == (d + 4 * hi) * p + low) by (nonlinear_arith)
        requires
            pack(vals) == low + d * p + (4 * p) * hi,
    ;
    lemma_fundamental_div_mod_converse_div(pack(vals) as int, p as int, (d + 4 * hi) as int, low as int);
    lemma_fundamental_div_mod_converse_mod((d + 4 * hi) as int, 4, hi as int, d as int);
}

/// When every row of a fragment opens with an ASCII byte, no row of any block
/// starts inside a character, and every left key is zero.
pub proof fn ascii_rows_left_key_zero(rows: Seq<Seq<u8>>, bi: nat, bs: nat)
    requires
        forall|k: int| 0 <= k < rows.len() ==> #[trigger] rows[k].len() > 0 && rows[k][0] < 0x80,
    ensures
        left_key(rows, bi, bs) == 0,
{
    let b = block(rows, bi, bs);
    let vals = b.map_values(|row: Seq<u8>| leading_continuations(row));
    assert forall|k: int| 0 <= k < vals.len() implies #[trigger] vals[k] == 0 by {
        let start = if bi * bs < rows.len() { bi * bs } else { rows.len() as nat };
        assert(b[k] == rows[start + k]);
    }
    lemma_pack_zero(vals);
}

/// A row that ends with a lead byte announcing `s` bytes misses `s - 1` of
/// them, and that count is the row's digit of the block's right key (rows
/// from the sixteenth on have no digit).
pub proof fn lead_at_row_end_sets_right_digit(rows: Seq<Seq<u8>>, bi: nat, bs: nat, i: nat, s: u8)
    requires
        i < 16,
        i < block(rows, bi, bs).len(),
        block(rows, bi, bs)[i as int].len() > 0,
        size_of_lead(block(rows, bi, bs)[i as int].last()) == Some(s),
        s >= 2,
    ensures
        (right_key(rows, bi, bs) / pow4(i)) % 4 == s - 1,
{
    let b = block(rows, bi, bs);
    let row = b[i as int];
    let vals = b.map_values(|row: Seq<u8>| missing_after(row));
    assert(row[row.len() - 1 - 0] == row.last());
    assert(trailing_continuations(row) == 0);
    assert(missing_after(row) == s - 1);
    lemma_pack_digit(vals, i);
}

/// Relies on itertools' `Itertools::find_position` over the row read from its
/// end: the first such position whose byte begins a character, with that byte.
#[verifier::external_body]
fn last_character_start(row: &Vec<u8>) -> (r: Option<(usize, u8)>)
    ensures
        match r {
            Some((i, b)) => {
                &&& i < row@.len()
                &&& b == row@[row@.len() - 1 - i]
                &&& !continuation(b)
                &&& forall|k: int| 0 <= k < i ==> continuation(#[trigger] row@[row@.len() - 1 - k])
            },
            None => forall|k: int| 0 <= k < row@.len() ==> continuation(#[trigger] row@[k]),
        },
{
    row.iter().rev().find_position(|b| begins_character(**b)).map(|(i, b)| (i, *b))
}

/// Number of continuation bytes at the start of the row.
pub fn leading_count(row: &Vec<u8>) -> (r: usize)
    ensures
        r == leading_continuations(row@),
{
    let mut j: usize = 0;
    assert(row@.subrange(0, row@.len() as int) =~= row@);
    while j < row.len() && is_continuation_byte(row[j])
        invariant
            j <= row@.len(),
            leading_continuations(row@) == j + leading_continuations(
                row@.subrange(j as int, row@.len() as int),
            ),
        decreases row@.len() - j,
    {
        proof {
            lemma_leading_step(row@, j as int);
        }
        j += 1;
    }
    proof {
        if j < row@.len() {
            lemma_leading_step(row@, j as int);
        } else {
            assert(row@.subrange(j as int, row@.len() as int).len() == 0);
        }
    }
    j
}

/// How many bytes of the row's last character are missing at its end.
pub fn missing_count(row: &Vec<u8>) -> (r: usize)
    ensures
        r == missing_after(row@),
{
    match last_character_start(row) {
        Some((i, b)) => {
            proof {
                lemma_trailing(row@, i as int);
            }
            match sequence_size(b) {
                Some(s) => if s as usize > i {
                    s as usize - 1 - i
                } else {
                    0
                },
                None => 0,
            }
        },
        None => {
            proof {
                assert forall|k: int| 0 <= k < row@.len() implies continuation(
                    #[trigger] row@[row@.len() - 1 - k],
                ) by {
                    assert(continuation(row@[row@.len() - 1 - k]));
                }
                lemma_trailing(row@, row@.len() as int);
            }
            0
        },
    }
}

/// Packs per-row values two bits each, as `pack` says.
pub fn pack_values(vals: &Vec<usize>) -> (r: u32)
    ensures
        r == pack(vals@.map_values(|v: usize| v as nat)),
{
    let ghost s = vals@.map_values(|v: usize| v as nat);
    let mut acc: u64 = 0;
    let mut weight: u64 = 1;
    let mut i: usize = 0;
    proof {
        lemma_pow4_bound(0);
        assert(s.take(0) =~= Seq::<nat>::empty());
    }
    while i < vals.len()
        invariant
            i <= vals@.len(),
            s == vals@.map_values(|v: usize| v as nat),
            acc == pack(s.take(i as int)),
            i <= 16 ==> weight == pow4(i as nat),
            acc < pow4(if i <= 16 { i as nat } else { 16 }),
            pow4(16) == 0x1_0000_0000,
        decreases vals@.len() - i,
    {
        proof {
            lemma_pack_step(s, i as int);
        }
        if i < 16 {
            let d: u64 = (vals[i] % 4) as u64;
            proof {
                lemma_pow4_bound(i as nat);
                lemma_pow4_bound((i + 1) as nat);
                assert(d * weight <= 3 * weight) by (nonlinear_arith)
                    requires
                        d <= 3,
                ;
            }
            acc = acc + d * weight;
            weight = weight * 4;
        }
        i += 1;
    }
    assert(s.take(vals@.len() as int) =~= s);
    proof {
        lemma_pow4_bound(if i <= 16 { i as nat } else { 16 });
    }
    acc as u32
}

impl MapPiece {
    /// The left and right fingerprints of block `block_index`, blocks being
    /// `block_size` rows tall.
    pub fn keys(&self, block_index: usize, block_size: usize) -> (r: (u32, u32))
        ensures
            r.0 == left_key(self@, block_index as nat, block_size as nat),
            r.1 == right_key(self@, block_index as nat, block_size as nat),
    {
        let n = self.bytes.len();
        let a = block_index as u128;
        let b = block_size as u128;
        assert(a * b <= u128::MAX) by (nonlinear_arith)
            requires
                a <= usize::MAX,
                b <= usize::MAX,
                usize::MAX <= u64::MAX,
        ;
        let prod: u128 = a * b;
        let start: usize = if prod < n as u128 {
            prod as usize
        } else {
            n
        };
        let end: usize = if block_size < n - start {
            start + block_size
        } else {
            n
        };
        let ghost rows = block(self@, block_index as nat, block_size as nat);
        assert(rows =~= self@.subrange(start as int, end as int));
        let mut left: Vec<usize> = Vec::new();
        let mut right: Vec<usize> = Vec::new();
        let mut r: usize = start;
        while r < end
            invariant
                start <= r <= end <= n == self.bytes@.len(),
                rows == self@.subrange(start as int, end as int),
                left@.len() == r - start,
                right@.len() == r - start,
                forall|k: int|
                    0 <= k < r - start ==> #[trigger] left@[k] as nat == leading_continuations(
                        rows[k],
                    ),
                forall|k: int|
                    0 <= k < r - start ==> #[trigger] right@[k] as nat == missing_after(rows[k]),
            decreases end - r,
        {
            left.push(leading_count(&self.bytes[r]));
            right.push(missing_count(&self.bytes[r]));
            r += 1;
        }
        let lk = pack_values(&left);
        let rk = pack_values(&right);
        assert(left@.map_values(|v: usize| v as nat) =~= rows.map_values(
            |row: Seq<u8>| leading_continuations(row),
        ));
        assert(right@.map_values(|v: usize| v as nat) =~= rows.map_values(
            |row: Seq<u8>| missing_after(row),
        ));
        (lk, rk)
    }

    /// The first row opens with the top-left corner `╔` (`E2 95 94`).
    pub fn is_top_left(&self) -> (r: bool)
        ensures
            r == top_left_role(self@),
    {
        if self.bytes.len() == 0 {
            return false;
        }
        let row = &self.bytes[0];
        row.len() >= 3 && row[0] == 0xE2 && row[1] == 0x95 && row[2] == 0x94
    }

    /// The last row opens with the bottom-left corner `╚` (`E2 95 9A`).
    pub fn is_bottom_left(&self) -> (r: bool)
        ensures
            r == bottom_left_role(self@),
    {
        if self.bytes.len() == 0 {
            return false;
        }
        let row = &self.bytes[self.bytes.len() - 1];
        row.len() >= 3 && row[0] == 0xE2 && row[1] == 0x95 && row[2] == 0x9A
    }

    /// The first row is made of horizontal border characters only.
    pub fn is_top(&self) -> (r: bool)
        ensures
            r == top_role(self@),
    {
        if self.bytes.len() == 0 {
            return false;
        }
        match decode_string(self.bytes[0].clone()) {
            None => false,
            Some(text) => {
                let s = text.as_str();
                let n = s.unicode_len();
                let mut k: usize = 0;
                while k < n
                    invariant
                        n == s@.len(),
                        s@ == decode_utf8(self@[0]),
                        k <= n,
                        forall|j: int| 0 <= j < k ==> (#[trigger] s@[j] == '-' || s@[j] == '═'),
                    decreases n - k,
                {
                    let ch = s.get_char(k);
                    if ch != '-' && ch != '═' {
                        return false;
                    }
                    k += 1;
                }
                true
            },
        }
    }

    /// Every row opens with a vertical border.
    pub fn is_left(&self) -> (r: bool)
        ensures
            r == left_role(self@),
    {
        let mut k: usize = 0;
        while k < self.bytes.len()
            invariant
                k <= self@.len(),
                forall|j: int| 0 <= j < k ==> opens_with_vertical_border(#[trigger] self@[j]),
            decreases self@.len() - k,
        {
            let row = &self.bytes[k];
            let bar = row.len() >= 1 && row[0] == 0x7C;
            let double = row.len() >= 3 && row[0] == 0xE2 && row[1] == 0x95 && row[2] == 0x91;
            if !bar && !double {
                assert(!opens_with_vertical_border(self@[k as int]));
                return false;
            }
            k += 1;
        }
        true
    }

    /// Length of the first row, or zero without rows.
    pub fn width(&self) -> (r: usize)
        ensures
            r == if self@.len() > 0 {
                self@[0].len()
            } else {
                0
            },
    {
        if self.bytes.len() > 0 {
            self.bytes[0].len()
        } else {
            0
        }
    }

    /// Number of rows.
    pub fn height(&self) -> (r: usize)
        ensures
            r == self@.len(),
    {
        self.bytes.len()
    }
}

} // verus!

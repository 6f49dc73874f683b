//! Hierarchical tile keys.
//!
//! A tile of the `2^zoom` by `2^zoom` grid is named by `zoom` characters over
//! the alphabet `0`..`3`, one per level, coarsest first. Each character packs
//! one bit of the column (weight 1) and one bit of the row (weight 2).

use vstd::arithmetic::div_mod::{lemma_basic_div, lemma_div_denominator};
use vstd::arithmetic::power2::{
    lemma2_to64, lemma2_to64_rest, lemma_pow2_adds, lemma_pow2_pos, lemma_pow2_strictly_increases,
    pow2,
};
use vstd::bits::lemma_u32_shr_is_div;
use vstd::prelude::*;
use vstd::string::StringExecFns;

verus! {

/// Bit `k` of `x`, as 0 or 1. Bits beyond the width of `x` are 0.
pub open spec fn tile_bit(x: int, k: nat) -> int {
    (x / pow2(k) as int) % 2
}

/// The base-4 digit that the tile `(x, y)` contributes at `level`, where
/// level 1 is the finest: bit `level - 1` of the column plus twice bit
/// `level - 1` of the row.
pub open spec fn level_digit(x: int, y: int, level: nat) -> int {
    tile_bit(x, (level - 1) as nat) + 2 * tile_bit(y, (level - 1) as nat)
}

/// The character that stands for a base-4 digit.
pub open spec fn digit_char(d: int) -> char {
    if d == 0 {
        '0'
    } else if d == 1 {
        '1'
    } else if d == 2 {
        '2'
    } else {
        '3'
    }
}

/// The key of tile `(x, y)` at `zoom`: `zoom` characters, the one at
/// position `j` being the digit of level `zoom - j`.
pub open spec fn tile_key(x: int, y: int, zoom: nat) -> Seq<char> {
    Seq::new(zoom, |j: int| digit_char(level_digit(x, y, (zoom - j) as nat)))
}

/// The tile that contains `(x, y)` when the grid is `levels` levels coarser.
pub open spec fn parent_tile(x: int, levels: nat) -> int {
    x / pow2(levels) as int
}

/// The digit that a character of a key stands for.
pub open spec fn char_digit(c: char) -> int {
    if c == '0' {
        0
    } else if c == '1' {
        1
    } else if c == '2' {
        2
    } else {
        3
    }
}

/// The number that the first `n` characters of a key spell in base 4.
pub open spec fn prefix_code(key: Seq<char>, n: nat) -> int
    decreases n,
{
    if n == 0 {
        0
    } else {
        4 * prefix_code(key, (n - 1) as nat) + char_digit(key[n - 1])
    }
}

/// A tile key: the text of a key together with its digits.
pub struct Quadkey {
    text: String,
    digits: Vec<u8>,
}

impl View for Quadkey {
    type V = Seq<char>;

    /// The characters of the key.
    closed spec fn view(&self) -> Seq<char> {
        self.text@
    }
}

impl Quadkey {
    #[verifier::type_invariant]
    spec fn well_formed(self) -> bool {
        &&& self.text@.len() == self.digits@.len()
        &&& forall|j: int|
            0 <= j < self.digits@.len() ==> self.digits@[j] < 4 && self.text@[j] == digit_char(
                #[trigger] self.digits@[j] as int,
            )
    }

    /// The key of tile `(xtile, ytile)` at `zoom`.
    pub fn new(xtile: u32, ytile: u32, zoom: u8) -> (key: Quadkey)
        ensures
            key@ == tile_key(xtile as int, ytile as int, zoom as nat),
    {
        let mut text = String::new();
        let mut digits: Vec<u8> = Vec::new();
        let mut i: u8 = zoom;
        while i > 0
            invariant
                i <= zoom,
                text@.len() == zoom - i,
                digits@.len() == zoom - i,
                forall|j: int|
                    0 <= j < zoom - i ==> digits@[j] < 4 && text@[j] == digit_char(
                        #[trigger] digits@[j] as int,
                    ),
                forall|j: int|
                    0 <= j < zoom - i ==> #[trigger] digits@[j] as int == level_digit(
                        xtile as int,
                        ytile as int,
                        (zoom - j) as nat,
                    ),
            decreases i,
        {
            let digit: u8 = bit_at(xtile, i - 1) + 2 * bit_at(ytile, i - 1);
            proof {
                reveal_strlit("0");
                reveal_strlit("1");
                reveal_strlit("2");
                reveal_strlit("3");
            }
            if digit == 0 {
                text.append("0");
            } else if digit == 1 {
                text.append("1");
            } else if digit == 2 {
                text.append("2");
            } else {
                text.append("3");
            }
            digits.push(digit);
            i = i - 1;
        }
        assert forall|j: int| 0 <= j < zoom implies text@[j] == tile_key(
            xtile as int,
            ytile as int,
            zoom as nat,
        )[j] by {
            assert(digits@[j] as int == level_digit(xtile as int, ytile as int, (zoom - j) as nat));
        }
        assert(text@ =~= tile_key(xtile as int, ytile as int, zoom as nat));
        Quadkey { text, digits }
    }

    /// The text of the key.
    pub fn to_string(&self) -> (text: &String)
        ensures
            text@ == self@,
    {
        &self.text
    }

    /// The number of levels that the key spans.
    pub fn zoom(&self) -> (levels: usize)
        ensures
            levels == self@.len(),
    {
        proof {
            use_type_invariant(self);
        }
        self.digits.len()
    }

    /// The number that the first `n` characters of the key spell in base 4.
    /// The number fits for up to 31 characters.
    pub fn code_of_prefix(&self, n: usize) -> (code: i64)
        requires
            n <= self@.len(),
            n <= 31,
        ensures
            code == prefix_code(self@, n as nat),
    {
        proof {
            use_type_invariant(self);
            lemma2_to64();
        }
        let mut code: i64 = 0;
        let mut j: usize = 0;
        while j < n
            invariant
                j <= n <= 31,
                n <= self.digits@.len(),
                self.text@.len() == self.digits@.len(),
                forall|k: int|
                    0 <= k < self.digits@.len() ==> self.digits@[k] < 4 && self.text@[k]
                        == digit_char(#[trigger] self.digits@[k] as int),
                code == prefix_code(self.text@, j as nat),
                0 <= code < pow2((2 * j) as nat),
            decreases n - j,
        {
            proof {
                lemma_pow2_adds((2 * j) as nat, 2);
                lemma2_to64();
                lemma2_to64_rest();
                if 2 * j + 2 < 62 {
                    lemma_pow2_strictly_increases((2 * j + 2) as nat, 62);
                }
                assert(char_digit(self.text@[j as int]) == self.digits@[j as int]);
            }
            code = code * 4 + self.digits[j] as i64;
            j = j + 1;
        }
        code
    }

    /// Whether the tile named by `other` lies inside the tile named by
    /// `self`: whether the text of `self` starts the text of `other`.
    pub fn is_prefix_of(&self, other: &Quadkey) -> (inside: bool)
        ensures
            inside == self@.is_prefix_of(other@),
    {
        proof {
            use_type_invariant(self);
            use_type_invariant(other);
        }
        let n = self.digits.len();
        if n > other.digits.len() {
            return false;
        }
        let mut j: usize = 0;
        while j < n
            invariant
                j <= n,
                n == self.digits@.len(),
                n <= other.digits@.len(),
                self.text@.len() == self.digits@.len(),
                other.text@.len() == other.digits@.len(),
                forall|k: int|
                    0 <= k < self.digits@.len() ==> self.digits@[k] < 4 && self.text@[k]
                        == digit_char(#[trigger] self.digits@[k] as int),
                forall|k: int|
                    0 <= k < other.digits@.len() ==> other.digits@[k] < 4 && other.text@[k]
                        == digit_char(#[trigger] other.digits@[k] as int),
                forall|k: int| 0 <= k < j ==> self.text@[k] == other.text@[k],
            decreases n - j,
        {
            if self.digits[j] != other.digits[j] {
                assert(self.text@[j as int] != other.text@.subrange(0, n as int)[j as int]);
                return false;
            }
            j = j + 1;
        }
        assert(self.text@ =~= other.text@.subrange(0, n as int));
        true
    }
}

/// Bit `k` of `x`.
fn bit_at(x: u32, k: u8) -> (bit: u8)
    ensures
        bit as int == tile_bit(x as int, k as nat),
        bit <= 1,
{
    if k >= 32 {
        proof {
            lemma2_to64();
            if k > 32 {
                lemma_pow2_strictly_increases(32, k as nat);
            }
            lemma_basic_div(x as int, pow2(k as nat) as int);
        }
        0
    } else {
        let mask: u32 = 1u32 << k;
        let shift: u32 = k as u32;
        proof {
            lemma_u32_shr_is_div(x, shift);
            assert((x & (1u32 << shift)) != 0 <==> (x >> shift) % 2 == 1) by (bit_vector)
                requires
                    shift < 32,
            ;
        }
        if (x & mask) != 0 {
            1
        } else {
            0
        }
    }
}

/// A key that starts another spells what the other spells, as far as it
/// reaches.
pub proof fn lemma_prefix_spells_the_same(short: Seq<char>, long: Seq<char>, n: nat)
    requires
        short.is_prefix_of(long),
        n <= short.len(),
    ensures
        prefix_code(short, n) == prefix_code(long, n),
    decreases n,
{
    if n > 0 {
        lemma_prefix_spells_the_same(short, long, (n - 1) as nat);
        assert(short[n - 1] == long.subrange(0, short.len() as int)[n - 1]);
    }
}

/// Going `levels` levels up the hierarchy shifts every bit down by `levels`.
proof fn lemma_parent_bit(x: int, levels: nat, k: nat)
    requires
        0 <= x,
    ensures
        tile_bit(parent_tile(x, levels), k) == tile_bit(x, k + levels),
{
    lemma_pow2_pos(levels);
    lemma_pow2_pos(k);
    lemma_pow2_adds(levels, k);
    lemma_div_denominator(x, pow2(levels) as int, pow2(k) as int);
}

/// The hierarchy of tile keys: the first `k` characters of a tile's key at
/// `zoom` are the key, at zoom `k`, of the tile that contains it `zoom - k`
/// levels up.
pub proof fn lemma_key_prefix_is_parent_key(x: int, y: int, zoom: nat, k: nat)
    requires
        0 <= x,
        0 <= y,
        k <= zoom,
    ensures
        tile_key(x, y, zoom).subrange(0, k as int) == tile_key(
            parent_tile(x, (zoom - k) as nat),
            parent_tile(y, (zoom - k) as nat),
            k,
        ),
{
    let up = (zoom - k) as nat;
    let whole = tile_key(x, y, zoom).subrange(0, k as int);
    let coarse = tile_key(parent_tile(x, up), parent_tile(y, up), k);
    assert forall|j: int| 0 <= j < k implies whole[j] == coarse[j] by {
        let level = (k - j) as nat;
        lemma_parent_bit(x, up, (level - 1) as nat);
        lemma_parent_bit(y, up, (level - 1) as nat);
    }
    assert(whole =~= coarse);
}

/// Two tiles that lie in the same tile `zoom - k` levels up have keys that
/// agree on their first `k` characters.
pub proof fn lemma_same_parent_same_prefix(x1: int, y1: int, x2: int, y2: int, zoom: nat, k: nat)
    requires
        0 <= x1,
        0 <= y1,
        0 <= x2,
        0 <= y2,
        k <= zoom,
        parent_tile(x1, (zoom - k) as nat) == parent_tile(x2, (zoom - k) as nat),
        parent_tile(y1, (zoom - k) as nat) == parent_tile(y2, (zoom - k) as nat),
    ensures
        tile_key(x1, y1, zoom).subrange(0, k as int) == tile_key(x2, y2, zoom).subrange(
            0,
            k as int,
        ),
{
    lemma_key_prefix_is_parent_key(x1, y1, zoom, k);
    lemma_key_prefix_is_parent_key(x2, y2, zoom, k);
}

} // verus!

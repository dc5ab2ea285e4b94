use vstd::prelude::*;
use crate::constants::{MI_BIN_HUGE, MI_INTPTR_SIZE, MI_LARGE_WSIZE_MAX, MI_SMALL_WSIZE_MAX};

verus! {

/// `n` is a power of two.
pub open spec fn is_power_of_two(n: nat) -> bool
    decreases n,
{
    if n <= 1 {
        n == 1
    } else {
        n % 2 == 0 && is_power_of_two(n / 2)
    }
}

/// A power of two up to a word divides a word; a larger one is a multiple of a word.
pub proof fn lemma_power_of_two_word(n: nat)
    requires
        is_power_of_two(n),
    ensures
        n >= 1,
        n <= 8 ==> 8nat % n == 0,
        n > 8 ==> n % 8 == 0,
{
    reveal_with_fuel(is_power_of_two, 4);
    if n <= 8 {
        assert(!is_power_of_two(3));
        assert(!is_power_of_two(5));
        assert(!is_power_of_two(6));
        assert(!is_power_of_two(7));
        assert(n == 1 || n == 2 || n == 4 || n == 8);
        assert(8nat % n == 0) by {
            if n == 1 {
                assert(8nat % 1 == 0);
            } else if n == 2 {
                assert(8nat % 2 == 0);
            } else if n == 4 {
                assert(8nat % 4 == 0);
            } else {
                assert(8nat % 8 == 0);
            }
        }
    }
    if n > 8 {
        let h = n / 2;
        assert(is_power_of_two(h));
        assert(h > 4);
        assert(h % 2 == 0);
        let q = h / 2;
        assert(is_power_of_two(q));
        assert(q % 2 == 0);
    }
}

/// Number of machine words needed for `size` bytes.
pub open spec fn spec_wsize(size: nat) -> nat {
    (size + 7) / 8
}

/// Bin of a word count above the small special cases, given `x == wsize - 1`.
///
/// With `b == floor(log2(x))` this is `4 * b + ((x >> (b - 2)) & 3) - 3`: each halving of
/// `x` adds one power of two, worth four bins, until `x` lies in `[4, 8)`.
pub open spec fn bin_above_small(x: nat) -> nat
    decreases x,
{
    if x < 8 {
        x + 1
    } else {
        4 + bin_above_small(x / 2)
    }
}

/// Size class of a word count.
pub open spec fn spec_bin_for_wsize(wsize: nat) -> nat {
    if wsize <= 1 {
        1
    } else if wsize <= 8 {
        wsize + wsize % 2
    } else if wsize > MI_LARGE_WSIZE_MAX {
        MI_BIN_HUGE as nat
    } else {
        bin_above_small((wsize - 1) as nat)
    }
}

/// Size class of a byte size.
pub open spec fn spec_bin_for_size(size: nat) -> nat {
    spec_bin_for_wsize(spec_wsize(size))
}

pub open spec fn pow2(k: nat) -> nat
    decreases k,
{
    if k == 0 {
        1
    } else {
        2 * pow2((k - 1) as nat)
    }
}

proof fn lemma_bin_above_small_lower(x: nat)
    ensures
        bin_above_small(x) >= 1,
        x >= 4 ==> bin_above_small(x) >= 5,
        x >= 8 ==> bin_above_small(x) >= 9,
    decreases x,
{
    if x >= 8 {
        lemma_bin_above_small_lower(x / 2);
    }
}

proof fn lemma_bin_above_small_upper(x: nat, k: nat)
    requires
        x < 8 * pow2(k),
    ensures
        bin_above_small(x) <= 4 * k + 8,
    decreases k,
{
    if x >= 8 {
        if k == 0 {
            assert(pow2(0) == 1);
        } else {
            assert(x / 2 < 8 * pow2((k - 1) as nat));
            lemma_bin_above_small_upper(x / 2, (k - 1) as nat);
        }
    }
}

proof fn lemma_bin_above_small_monotone(x: nat, y: nat)
    requires
        x <= y,
    ensures
        bin_above_small(x) <= bin_above_small(y),
    decreases y,
{
    if y >= 8 {
        if x >= 8 {
            lemma_bin_above_small_monotone(x / 2, y / 2);
        } else {
            lemma_bin_above_small_lower(y / 2);
        }
    }
}

/// Every word count up to the large limit lands in a bin in `[1, 60]`; beyond it, in the
/// huge bin.
pub proof fn lemma_bin_range(wsize: nat)
    ensures
        1 <= spec_bin_for_wsize(wsize) <= MI_BIN_HUGE,
        wsize <= MI_LARGE_WSIZE_MAX ==> spec_bin_for_wsize(wsize) <= 60,
        wsize > MI_LARGE_WSIZE_MAX ==> spec_bin_for_wsize(wsize) == MI_BIN_HUGE,
        wsize <= MI_SMALL_WSIZE_MAX ==> spec_bin_for_wsize(wsize) <= 24,
{
    if 8 < wsize <= MI_LARGE_WSIZE_MAX {
        reveal_with_fuel(pow2, 14);
        lemma_bin_above_small_lower((wsize - 1) as nat);
        lemma_bin_above_small_upper((wsize - 1) as nat, 13);
        if wsize <= MI_SMALL_WSIZE_MAX {
            lemma_bin_above_small_upper((wsize - 1) as nat, 4);
        }
    }
}

/// The size classes are ordered as the word counts are.
pub proof fn lemma_bin_monotone(w1: nat, w2: nat)
    requires
        w1 <= w2,
    ensures
        spec_bin_for_wsize(w1) <= spec_bin_for_wsize(w2),
{
    lemma_bin_range(w1);
    lemma_bin_range(w2);
    if 8 < w1 && w2 <= MI_LARGE_WSIZE_MAX {
        lemma_bin_above_small_monotone((w1 - 1) as nat, (w2 - 1) as nat);
    } else if w1 <= 8 && 8 < w2 && w2 <= MI_LARGE_WSIZE_MAX {
        lemma_bin_above_small_lower((w2 - 1) as nat);
    }
}

/// `ceil(size / MI_INTPTR_SIZE)`.
pub fn wsize_from_size(size: usize) -> (r: usize)
    ensures
        r == spec_wsize(size as nat),
{
    size / MI_INTPTR_SIZE + if size % MI_INTPTR_SIZE == 0 {
        0
    } else {
        1
    }
}

/// The bin that serves a request of `size` bytes.
pub fn bin_for_size(size: usize) -> (r: usize)
    ensures
        r == spec_bin_for_size(size as nat),
        1 <= r <= MI_BIN_HUGE,
{
    let wsize = wsize_from_size(size);
    bin_for_wsize(wsize)
}

/// The bin that serves a request of `wsize` words.
pub fn bin_for_wsize(wsize: usize) -> (r: usize)
    ensures
        r == spec_bin_for_wsize(wsize as nat),
        1 <= r <= MI_BIN_HUGE,
{
    proof {
        lemma_bin_range(wsize as nat);
    }
    if wsize <= 1 {
        1
    } else if wsize <= 8 {
        wsize + wsize % 2
    } else if wsize > MI_LARGE_WSIZE_MAX {
        MI_BIN_HUGE
    } else {
        let mut x: usize = wsize - 1;
        let mut acc: usize = 0;
        while x >= 8
            invariant
                8 <= wsize <= MI_LARGE_WSIZE_MAX,
                bin_above_small((wsize - 1) as nat) == acc + bin_above_small(x as nat),
                bin_above_small((wsize - 1) as nat) <= 60,
            decreases x,
        {
            proof {
                lemma_bin_above_small_lower((x / 2) as nat);
            }
            x = x / 2;
            acc = acc + 4;
        }
        acc + x + 1
    }
}

/// The bins that share a slot range of the direct table: entry `w` holds `[l, r)`, the
/// largest run of word counts around `w` (up to `MI_SMALL_WSIZE_MAX`) with the bin of `w`.
/// A word count of zero belongs to the run of one.
pub open spec fn is_bin_run(w: nat, l: nat, r: nat) -> bool {
    &&& l <= w < r <= MI_SMALL_WSIZE_MAX + 1
    &&& forall|x: nat| l <= x < r ==> spec_bin_for_wsize(x) == spec_bin_for_wsize(w)
    &&& (l == 0 || spec_bin_for_wsize((l - 1) as nat) != spec_bin_for_wsize(w))
    &&& (r == MI_SMALL_WSIZE_MAX + 1 || spec_bin_for_wsize(r) != spec_bin_for_wsize(w))
}

/// Table of the runs of word counts that share a bin, for every word count of the
/// direct table.
pub fn wsize_range_in_same_small_bin() -> (result: Vec<(u8, u8)>)
    ensures
        result.len() == MI_SMALL_WSIZE_MAX + 1,
        forall|w: int|
            0 <= w <= MI_SMALL_WSIZE_MAX ==> is_bin_run(
                w as nat,
                #[trigger] result[w].0 as nat,
                result[w].1 as nat,
            ),
{
    let mut result: Vec<(u8, u8)> = Vec::new();
    let mut k: usize = 0;
    while k <= MI_SMALL_WSIZE_MAX
        invariant
            result.len() == k,
            k <= MI_SMALL_WSIZE_MAX + 1,
        decreases MI_SMALL_WSIZE_MAX + 1 - k,
    {
        result.push((0, 0));
        k = k + 1;
    }
    let mut wsize: usize = 1;
    while wsize <= MI_SMALL_WSIZE_MAX
        invariant
            1 <= wsize <= MI_SMALL_WSIZE_MAX + 1,
            result.len() == MI_SMALL_WSIZE_MAX + 1,
            forall|w: int|
                0 <= w < wsize && wsize > 1 ==> is_bin_run(
                    w as nat,
                    #[trigger] result[w].0 as nat,
                    result[w].1 as nat,
                ),
            wsize == 1 || wsize > MI_SMALL_WSIZE_MAX || spec_bin_for_wsize((wsize - 1) as nat)
                != spec_bin_for_wsize(wsize as nat),
        decreases MI_SMALL_WSIZE_MAX + 1 - wsize,
    {
        let bin = bin_for_wsize(wsize);
        let l: usize = if wsize == 1 {
            0
        } else {
            wsize
        };
        let mut r: usize = wsize + 1;
        while r <= MI_SMALL_WSIZE_MAX && bin_for_wsize(r) == bin
            invariant
                1 <= wsize < r <= MI_SMALL_WSIZE_MAX + 1,
                bin == spec_bin_for_wsize(wsize as nat),
                forall|x: nat| wsize <= x < r ==> spec_bin_for_wsize(x) == bin,
            decreases MI_SMALL_WSIZE_MAX + 1 - r,
        {
            r = r + 1;
        }
        assert(forall|x: nat| l <= x < r ==> spec_bin_for_wsize(x) == bin);
        let ghost old_result = result@;
        let mut i: usize = l;
        while i < r
            invariant
                l <= i <= r <= MI_SMALL_WSIZE_MAX + 1,
                l <= wsize < r,
                l == 0 || l == wsize,
                bin == spec_bin_for_wsize(wsize as nat),
                forall|x: nat| l <= x < r ==> spec_bin_for_wsize(x) == bin,
                l == 0 || spec_bin_for_wsize((l - 1) as nat) != bin,
                r == MI_SMALL_WSIZE_MAX + 1 || spec_bin_for_wsize(r as nat) != bin,
                result.len() == MI_SMALL_WSIZE_MAX + 1,
                old_result.len() == MI_SMALL_WSIZE_MAX + 1,
                forall|w: int| 0 <= w < l ==> result[w] == old_result[w],
                forall|w: int|
                    0 <= w < l ==> is_bin_run(
                        w as nat,
                        #[trigger] old_result[w].0 as nat,
                        old_result[w].1 as nat,
                    ),
                forall|w: int|
                    l <= w < i ==> result[w] == (l as u8, r as u8),
            decreases r - i,
        {
            result.set(i, (l as u8, r as u8));
            i = i + 1;
        }
        assert forall|w: int| 0 <= w < r implies is_bin_run(
            w as nat,
            #[trigger] result[w].0 as nat,
            result[w].1 as nat,
        ) by {
            if w >= l {
                assert(result[w] == (l as u8, r as u8));
                assert(spec_bin_for_wsize(w as nat) == bin);
            } else {
                assert(result[w] == old_result[w]);
            }
        }
        wsize = r;
    }
    result
}

/// Representative block size of each non-huge bin: the largest word count of the bin,
/// in bytes. Bins that no word count reaches hold 1.
pub open spec fn is_block_size_table(t: Seq<usize>) -> bool {
    &&& t.len() == MI_BIN_HUGE
    &&& forall|w: nat|
        1 <= w <= MI_LARGE_WSIZE_MAX ==> #[trigger] t[spec_bin_for_wsize(w) as int] >= 8 * w
    &&& forall|b: int|
        0 <= b < MI_BIN_HUGE ==> (#[trigger] t[b] == 1 || exists|w: nat|
            1 <= w <= MI_LARGE_WSIZE_MAX && spec_bin_for_wsize(w) == b && t[b] == 8 * w)
}

/// Computes the representative block size of every non-huge bin.
pub fn block_size_for_bin() -> (result: Vec<usize>)
    ensures
        is_block_size_table(result@),
{
    let mut result: Vec<usize> = Vec::new();
    let mut k: usize = 0;
    while k < MI_BIN_HUGE
        invariant
            result.len() == k,
            k <= MI_BIN_HUGE,
            forall|b: int| 0 <= b < k ==> result[b] == 1,
        decreases MI_BIN_HUGE - k,
    {
        result.push(1);
        k = k + 1;
    }
    let mut wsize: usize = 1;
    while wsize <= MI_LARGE_WSIZE_MAX
        invariant
            1 <= wsize <= MI_LARGE_WSIZE_MAX + 1,
            result.len() == MI_BIN_HUGE,
            forall|w: nat|
                1 <= w < wsize ==> #[trigger] result[spec_bin_for_wsize(w) as int] >= 8 * w,
            forall|b: int|
                0 <= b < MI_BIN_HUGE ==> (#[trigger] result[b] == 1 || exists|w: nat|
                    1 <= w < wsize && spec_bin_for_wsize(w) == b && result[b] == 8 * w),
        decreases MI_LARGE_WSIZE_MAX + 1 - wsize,
    {
        let bin = bin_for_wsize(wsize);
        proof {
            lemma_bin_range(wsize as nat);
        }
        let ghost prev = result@;
        result.set(bin, wsize * MI_INTPTR_SIZE);
        assert forall|w: nat| 1 <= w < wsize + 1 implies #[trigger] result[spec_bin_for_wsize(
            w,
        ) as int] >= 8 * w by {
            lemma_bin_range(w);
            if w < wsize {
                lemma_bin_monotone(w, wsize as nat);
                assert(prev[spec_bin_for_wsize(w) as int] >= 8 * w);
            }
        }
        assert forall|b: int| 0 <= b < MI_BIN_HUGE implies (#[trigger] result[b] == 1 || exists|
            w: nat,
        | 1 <= w < wsize + 1 && spec_bin_for_wsize(w) == b && result[b] == 8 * w) by {
            if b == bin {
                assert(spec_bin_for_wsize(wsize as nat) == b && result[b] == 8 * wsize);
            } else {
                assert(result[b] == prev[b]);
            }
        }
        wsize = wsize + 1;
    }
    result
}

} // verus!

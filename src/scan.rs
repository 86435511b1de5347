//! Reading text out of raw bytes: lines ending in a newline, words separated
//! by ASCII whitespace, and unsigned decimal numbers.
use vstd::prelude::*;
use crate::decimal::{digits_value, is_digit, is_numeral};

verus! {

pub open spec fn is_space(b: u8) -> bool {
    b == 32 || (9 <= b && b <= 13)
}

/// The index of the first newline at or after `i`, or the length of `d` if
/// there is none.
pub open spec fn line_end(d: Seq<u8>, i: int) -> int
    decreases d.len() - i,
{
    if 0 <= i < d.len() {
        if d[i] == 10 {
            i
        } else {
            line_end(d, i + 1)
        }
    } else {
        d.len() as int
    }
}

/// The words of `d[i..end]`, where `cur` is the part of a word already read
/// before `i`.
pub open spec fn split_words(d: Seq<u8>, i: int, end: int, cur: Seq<u8>) -> Seq<Seq<u8>>
    decreases end - i,
{
    if 0 <= i < end && i < d.len() {
        if is_space(d[i]) {
            let rest = split_words(d, i + 1, end, seq![]);
            if cur.len() == 0 {
                rest
            } else {
                seq![cur] + rest
            }
        } else {
            split_words(d, i + 1, end, cur.push(d[i]))
        }
    } else if cur.len() == 0 {
        seq![]
    } else {
        seq![cur]
    }
}

/// The maximal runs of non-whitespace bytes in `d[start..end]`, in order.
pub open spec fn words(d: Seq<u8>, start: int, end: int) -> Seq<Seq<u8>> {
    split_words(d, start, end, seq![])
}

/// The value of a word read as a decimal `u32`, if it is one.
pub open spec fn word_u32(w: Seq<u8>) -> Option<u32> {
    if is_numeral(w) && digits_value(w) <= u32::MAX {
        Some(digits_value(w) as u32)
    } else {
        None
    }
}

pub open spec fn word_values(d: Seq<u8>, start: int, end: int) -> Seq<Option<u32>> {
    words(d, start, end).map_values(|w: Seq<u8>| word_u32(w))
}

pub proof fn lemma_line_end_bounds(d: Seq<u8>, i: int)
    requires
        0 <= i <= d.len(),
    ensures
        i <= line_end(d, i) <= d.len(),
        line_end(d, i) < d.len() ==> d[line_end(d, i)] == 10,
    decreases d.len() - i,
{
    if i < d.len() && d[i] != 10 {
        lemma_line_end_bounds(d, i + 1);
    }
}

pub proof fn lemma_line_end_at(d: Seq<u8>, i: int, j: int)
    requires
        0 <= i <= j < d.len(),
        d[j] == 10,
        forall|k: int| i <= k < j ==> #[trigger] d[k] != 10,
    ensures
        line_end(d, i) == j,
    decreases j - i,
{
    if i < j {
        lemma_line_end_at(d, i + 1, j);
    }
}

/// A run of `k` non-whitespace bytes joins the word being read.
pub proof fn lemma_split_run(d: Seq<u8>, i: int, k: int, end: int, cur: Seq<u8>)
    requires
        0 <= i,
        0 <= k,
        i + k <= end <= d.len(),
        forall|m: int| i <= m < i + k ==> !is_space(#[trigger] d[m]),
    ensures
        split_words(d, i, end, cur) == split_words(d, i + k, end, cur + d.subrange(i, i + k)),
    decreases k,
{
    if k == 0 {
        assert(cur + d.subrange(i, i) =~= cur);
    } else {
        lemma_split_run(d, i + 1, k - 1, end, cur.push(d[i]));
        assert(cur.push(d[i]) + d.subrange(i + 1, i + k) =~= cur + d.subrange(i, i + k));
    }
}

/// Just after a whitespace byte, the words split into those before it and
/// those from it on.
pub proof fn lemma_split_join(d: Seq<u8>, i: int, j: int, end: int, cur: Seq<u8>)
    requires
        0 <= i < j <= end <= d.len(),
        is_space(d[j - 1]),
    ensures
        split_words(d, i, end, cur) == split_words(d, i, j, cur) + split_words(d, j, end, seq![]),
    decreases j - i,
{
    if i + 1 == j {
        assert(split_words(d, j, j, seq![]) == Seq::<Seq<u8>>::empty());
        if cur.len() == 0 {
            assert(split_words(d, i, j, cur) =~= Seq::<Seq<u8>>::empty());
            assert(split_words(d, i, end, cur) =~= split_words(d, i, j, cur) + split_words(d, j, end, seq![]));
        } else {
            assert(split_words(d, i, end, cur) =~= split_words(d, i, j, cur) + split_words(d, j, end, seq![]));
        }
    } else if is_space(d[i]) {
        lemma_split_join(d, i + 1, j, end, seq![]);
        if cur.len() == 0 {
        } else {
            assert(split_words(d, i, end, cur) =~= split_words(d, i, j, cur) + split_words(d, j, end, seq![]));
        }
    } else {
        lemma_split_join(d, i + 1, j, end, cur.push(d[i]));
    }
}

/// The index of the first newline at or after `i`, or `d.len()`.
pub fn find_line_end(d: &Vec<u8>, i: usize) -> (e: usize)
    requires
        i <= d@.len(),
    ensures
        e == line_end(d@, i as int),
{
    let mut j: usize = i;
    while j < d.len() && d[j] != 10u8
        invariant
            i <= j <= d@.len(),
            line_end(d@, i as int) == line_end(d@, j as int),
        decreases d@.len() - j,
    {
        j = j + 1;
    }
    j
}

/// Reads the words of `d[start..end]` as decimal `u32` values, one entry per
/// word, `None` for a word that is not a numeral or does not fit.
pub fn scan_words(d: &Vec<u8>, start: usize, end: usize) -> (r: Vec<Option<u32>>)
    requires
        start <= end <= d@.len(),
    ensures
        r@ == word_values(d@, start as int, end as int),
{
    let mut r: Vec<Option<u32>> = Vec::new();
    let ghost mut done: Seq<Seq<u8>> = seq![];
    let ghost mut cur: Seq<u8> = seq![];
    let mut in_word = false;
    let mut bad = false;
    let mut big = false;
    let mut acc: u32 = 0;
    let mut i: usize = start;
    while i < end
        invariant
            start <= i <= end <= d@.len(),
            done + split_words(d@, i as int, end as int, cur) == words(
                d@,
                start as int,
                end as int,
            ),
            r@ == done.map_values(|w: Seq<u8>| word_u32(w)),
            in_word == (cur.len() > 0),
            bad == !(forall|k: int| 0 <= k < cur.len() ==> is_digit(#[trigger] cur[k])),
            !bad && !big ==> acc == digits_value(cur),
            !bad && big ==> digits_value(cur) > u32::MAX,
        decreases end - i,
    {
        let c = d[i];
        if is_space_byte(c) {
            if in_word {
                let v = if bad || big {
                    None
                } else {
                    Some(acc)
                };
                proof {
                    assert(v == word_u32(cur));
                    assert(done.push(cur).map_values(|w: Seq<u8>| word_u32(w)) =~= r@.push(v));
                    assert(seq![cur] + split_words(d@, i + 1, end as int, seq![]) == split_words(
                        d@,
                        i as int,
                        end as int,
                        cur,
                    ));
                    assert(done + split_words(d@, i as int, end as int, cur) =~= done.push(cur)
                        + split_words(d@, i + 1, end as int, seq![]));
                    done = done.push(cur);
                }
                r.push(v);
            }
            proof {
                cur = seq![];
            }
            in_word = false;
            bad = false;
            big = false;
            acc = 0;
        } else {
            let ghost old_cur = cur;
            proof {
                cur = cur.push(c);
                assert(cur.drop_last() =~= old_cur);
            }
            in_word = true;
            if !bad {
                if 48u8 <= c && c <= 57u8 {
                    if !big {
                        let next: u64 = acc as u64 * 10 + (c - 48u8) as u64;
                        if next > 0xffff_ffffu64 {
                            big = true;
                        } else {
                            acc = next as u32;
                        }
                    }
                    proof {
                        assert forall|k: int| 0 <= k < cur.len() implies is_digit(
                            #[trigger] cur[k],
                        ) by {
                            if k < old_cur.len() {
                                assert(cur[k] == old_cur[k]);
                            }
                        }
                    }
                } else {
                    bad = true;
                    assert(!is_digit(cur[cur.len() - 1]));
                }
            } else {
                let ghost k0 = choose|k: int| 0 <= k < old_cur.len() && !is_digit(old_cur[k]);
                assert(cur[k0] == old_cur[k0]);
            }
        }
        i = i + 1;
    }
    if in_word {
        let v = if bad || big {
            None
        } else {
            Some(acc)
        };
        proof {
            assert(done.push(cur).map_values(|w: Seq<u8>| word_u32(w)) =~= r@.push(v));
            assert(done + split_words(d@, i as int, end as int, cur) =~= done.push(cur));
        }
        r.push(v);
    } else {
        assert(done + split_words(d@, i as int, end as int, cur) =~= done);
    }
    r
}

fn is_space_byte(c: u8) -> (r: bool)
    ensures
        r == is_space(c),
{
    c == 32u8 || (9u8 <= c && c <= 13u8)
}

} // verus!

//! Size of a node's rectangle from the text it shows.

use vstd::prelude::*;

use crate::graph::model::TextSize;
use vstd::string::StringSliceAdditionalSpecFns;

verus! {

pub const CHAR_WIDTH: u64 = 7;
pub const LINE_HEIGHT: u64 = 16;
pub const PADDING_H: u64 = 20;
pub const PADDING_V: u64 = 14;
pub const MIN_WIDTH: u64 = 40;
pub const MIN_HEIGHT: u64 = 24;

/// `b` cut at every `'\n'` (the newlines dropped); one more piece than newlines.
pub open spec fn pieces(b: Seq<u8>) -> Seq<Seq<u8>>
    decreases b.len(),
{
    if b.len() == 0 {
        seq![Seq::<u8>::empty()]
    } else {
        let p = pieces(b.drop_last());
        if b.last() == 10u8 {
            p.push(Seq::<u8>::empty())
        } else {
            p.update(p.len() - 1, p.last().push(b.last()))
        }
    }
}

/// `l` without one trailing `'\r'`.
pub open spec fn strip_cr(l: Seq<u8>) -> Seq<u8> {
    if l.len() > 0 && l.last() == 13u8 {
        l.drop_last()
    } else {
        l
    }
}

/// The lines of `b` as `str::lines` yields them: pieces between newlines, a
/// `'\r'` before a newline dropped, no empty line after a final newline, and a
/// final unterminated line kept as it is.
pub open spec fn text_lines(b: Seq<u8>) -> Seq<Seq<u8>> {
    let p = pieces(b);
    let terminated = p.drop_last().map_values(|l: Seq<u8>| strip_cr(l));
    if p.last().len() == 0 {
        terminated
    } else {
        terminated.push(p.last())
    }
}

/// Length of the longest of `ls` (0 for none).
pub open spec fn longest(ls: Seq<Seq<u8>>) -> nat
    decreases ls.len(),
{
    if ls.len() == 0 {
        0
    } else {
        let m = longest(ls.drop_last());
        if ls.last().len() > m {
            ls.last().len()
        } else {
            m
        }
    }
}

pub open spec fn max_of(a: int, b: int) -> int {
    if a >= b {
        a
    } else {
        b
    }
}

/// Rectangle for UTF-8 text `b`: 7 units per byte of the longest line plus 20,
/// at least 40 wide; 16 units per line plus 14, at least 24 high; 40 by 24 for
/// empty text.
pub open spec fn text_size(b: Seq<u8>) -> (int, int) {
    if b.len() == 0 {
        (MIN_WIDTH as int, MIN_HEIGHT as int)
    } else {
        let ls = text_lines(b);
        let num_lines = max_of(ls.len() as int, 1);
        let max_line_len = if ls.len() == 0 {
            1
        } else {
            longest(ls) as int
        };
        (
            max_of(max_line_len * CHAR_WIDTH + PADDING_H, MIN_WIDTH as int),
            max_of(num_lines * LINE_HEIGHT + PADDING_V, MIN_HEIGHT as int),
        )
    }
}

proof fn lemma_pieces_nonempty(b: Seq<u8>)
    ensures
        pieces(b).len() >= 1,
        forall|i: int| 0 <= i < pieces(b).len() ==> #[trigger] pieces(b)[i].len() <= b.len(),
    decreases b.len(),
{
    if b.len() > 0 {
        lemma_pieces_nonempty(b.drop_last());
    }
}

proof fn lemma_longest_push(ls: Seq<Seq<u8>>, l: Seq<u8>)
    ensures
        longest(ls.push(l)) == max_of(longest(ls) as int, l.len() as int),
{
    assert(ls.push(l).drop_last() =~= ls);
}

proof fn lemma_longest_bound(ls: Seq<Seq<u8>>, k: nat)
    requires
        forall|i: int| 0 <= i < ls.len() ==> #[trigger] ls[i].len() <= k,
    ensures
        longest(ls) <= k,
    decreases ls.len(),
{
    if ls.len() > 0 {
        lemma_longest_bound(ls.drop_last(), k);
    }
}

/// Estimate a node rectangle's size from its (possibly multi-line) text.
pub fn estimate_text_size(data: &str) -> (size: TextSize)
    ensures
        size.width == text_size(data.spec_bytes()).0,
        size.height == text_size(data.spec_bytes()).1,
{
    let b = data.as_bytes();
    let n = b.len();
    if n == 0 {
        return TextSize { width: MIN_WIDTH as u128, height: MIN_HEIGHT as u128 };
    }
    let ghost bs = b@;
    // Lines finished so far, the longest of them, and the line being read.
    let mut done: u64 = 0;
    let mut done_max: u64 = 0;
    let mut cur: u64 = 0;
    let mut cur_cr = false;
    let mut i: usize = 0;
    assert(bs.take(0) =~= Seq::<u8>::empty());
    while i < n
        invariant
            n == bs.len(),
            b@ == bs,
            i <= n,
            n <= u64::MAX,
            ({
                let p = pieces(bs.take(i as int));
                &&& done as int == p.len() - 1
                &&& done_max as int == longest(p.drop_last().map_values(|l: Seq<u8>| strip_cr(l)))
                &&& cur as int == p.last().len()
                &&& cur_cr == (p.last().len() > 0 && p.last().last() == 13u8)
                &&& done + cur <= i
            }),
        decreases n - i,
    {
        let c = b[i];
        let ghost pre = bs.take(i as int);
        let ghost p = pieces(pre);
        assert(bs.take(i + 1) =~= pre.push(c));
        assert(bs.take(i + 1).drop_last() =~= pre);
        let ghost q = pieces(bs.take(i + 1));
        if c == 10u8 {
            let len = if cur_cr {
                cur - 1
            } else {
                cur
            };
            proof {
                assert(q == p.push(Seq::<u8>::empty()));
                let t0 = p.drop_last().map_values(|l: Seq<u8>| strip_cr(l));
                assert(q.drop_last().map_values(|l: Seq<u8>| strip_cr(l)) =~= t0.push(strip_cr(p.last())));
                lemma_longest_push(t0, strip_cr(p.last()));
            }
            if len > done_max {
                done_max = len;
            }
            done = done + 1;
            cur = 0;
            cur_cr = false;
        } else {
            proof {
                assert(q == p.update(p.len() - 1, p.last().push(c)));
                assert(q.drop_last() =~= p.drop_last());
                assert(q.last() == p.last().push(c));
            }
            cur = cur + 1;
            cur_cr = c == 13u8;
        }
        i = i + 1;
    }
    assert(bs.take(n as int) =~= bs);
    let ghost p = pieces(bs);
    let ghost ls = text_lines(bs);
    let (lines, longest_len) = if cur > 0 {
        proof {
            lemma_longest_push(p.drop_last().map_values(|l: Seq<u8>| strip_cr(l)), p.last());
        }
        (done + 1, if cur > done_max { cur } else { done_max })
    } else {
        (done, done_max)
    };
    proof {
        lemma_pieces_nonempty(bs);
        assert(lines as int == ls.len());
        assert(longest_len as int == longest(ls));
        if ls.len() == 0 {
            assert(p.len() == 1);
            assert(p.last().len() == 0);
            assert(p[0].len() == 0);
        }
        assert(ls.len() >= 1) by {
            if ls.len() == 0 {
                // The only piece is empty, so the text is empty.
                assert(p.len() == 1);
                lemma_single_piece(bs);
            }
        }
        assert forall|k: int| 0 <= k < ls.len() implies #[trigger] ls[k].len() <= bs.len() by {
            if k < p.len() - 1 {
                assert(p[k].len() <= bs.len());
            } else {
                assert(p[p.len() - 1].len() <= bs.len());
            }
        }
        lemma_longest_bound(ls, bs.len());
    }
    let num_lines = if lines > 1 {
        lines
    } else {
        1
    };
    let w_raw: u128 = longest_len as u128 * CHAR_WIDTH as u128 + PADDING_H as u128;
    let h_raw: u128 = num_lines as u128 * LINE_HEIGHT as u128 + PADDING_V as u128;
    let width = if w_raw > MIN_WIDTH as u128 {
        w_raw
    } else {
        MIN_WIDTH as u128
    };
    let height = if h_raw > MIN_HEIGHT as u128 {
        h_raw
    } else {
        MIN_HEIGHT as u128
    };
    TextSize { width, height }
}

/// A text with a single piece and no newline is the piece itself.
proof fn lemma_single_piece(b: Seq<u8>)
    requires
        pieces(b).len() == 1,
    ensures
        pieces(b)[0] == b,
    decreases b.len(),
{
    if b.len() > 0 {
        let p = pieces(b.drop_last());
        lemma_pieces_nonempty(b.drop_last());
        if b.last() == 10u8 {
            assert(pieces(b).len() == p.len() + 1);
        } else {
            assert(pieces(b) == p.update(p.len() - 1, p.last().push(b.last())));
            lemma_single_piece(b.drop_last());
            assert(b.drop_last().push(b.last()) =~= b);
        }
    }
}

/// A node's rectangle is never smaller than 40 by 24.
pub proof fn lemma_text_size_minimums(b: Seq<u8>)
    ensures
        text_size(b).0 >= MIN_WIDTH,
        text_size(b).1 >= MIN_HEIGHT,
{
}

} // verus!

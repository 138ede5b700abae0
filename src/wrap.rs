//! Line wrapping: splitting one line of text into column-bounded ranges.
use vstd::prelude::*;

verus! {

/// Whether `c` ends a word: words are split after spaces and tabs, the
/// separator staying with the word before it.
pub open spec fn is_separator(c: char) -> bool {
    c == ' ' || c == '\t'
}

/// Where the word that starts at `i` ends (exclusive): just after the first
/// separator at or after `i`, else at the end of the line.
pub open spec fn word_end(s: Seq<char>, i: int) -> int
    decreases s.len() - i,
{
    if i >= s.len() {
        i
    } else if is_separator(s[i]) {
        i + 1
    } else {
        word_end(s, i + 1)
    }
}

/// Appends ranges of at most `cols` characters after the last one until
/// `rest` more characters are covered.
pub open spec fn hard_split(acc: Seq<(int, int)>, rest: int, cols: int) -> Seq<(int, int)>
    decreases rest,
{
    if rest <= 0 || cols <= 0 {
        acc
    } else {
        let end = acc.last().1;
        let piece = if rest < cols { rest } else { cols };
        hard_split(acc.push((end, end + piece)), rest - piece, cols)
    }
}

/// Places a word of `w` characters after the ranges `acc`: it extends the
/// last range if it fits there, starts a new range if it fits in one, and
/// otherwise fills the last range and is split across as many new ranges
/// as it needs.
pub open spec fn place_word(acc: Seq<(int, int)>, w: int, cols: int) -> Seq<(int, int)> {
    let last = acc.last();
    let k = acc.len() - 1;
    if w > cols {
        let used = cols - (last.1 - last.0);
        hard_split(acc.update(k, (last.0, last.1 + used)), w - used, cols)
    } else if last.1 + w - last.0 > cols {
        acc.push((last.1, last.1 + w))
    } else {
        acc.update(k, (last.0, last.1 + w))
    }
}

/// The ranges after placing every word of `s` from position `i` on.
pub open spec fn wrap_from(s: Seq<char>, i: int, acc: Seq<(int, int)>, cols: int) -> Seq<(int, int)>
    decreases s.len() - i,
{
    if i < 0 || i >= s.len() {
        acc
    } else {
        let j = word_end(s, i);
        if j <= i || j > s.len() {
            acc
        } else {
            wrap_from(s, j, place_word(acc, j - i, cols), cols)
        }
    }
}

/// The wrapped ranges `(start, end)` of the line `s` at `cols` columns.
pub open spec fn wrap_of(s: Seq<char>, cols: int) -> Seq<(int, int)> {
    wrap_from(s, 0, seq![(0int, 0int)], cols)
}

/// Ranges that tile `[0, end)` in order, none wider than `cols`.
pub open spec fn tiles(r: Seq<(int, int)>, end: int, cols: int) -> bool {
    &&& r.len() >= 1
    &&& r[0].0 == 0
    &&& r.last().1 == end
    &&& forall|k: int| 0 <= k < r.len() ==> #[trigger] r[k].0 <= r[k].1 <= r[k].0 + cols
    &&& forall|k: int| 0 <= k < r.len() - 1 ==> #[trigger] r[k].1 == r[k + 1].0
}

pub proof fn lemma_word_end(s: Seq<char>, i: int)
    requires
        0 <= i < s.len(),
    ensures
        i < word_end(s, i) <= s.len(),
    decreases s.len() - i,
{
    if !is_separator(s[i]) {
        if i + 1 < s.len() {
            lemma_word_end(s, i + 1);
        } else {
            assert(word_end(s, i + 1) == i + 1);
        }
    }
}

proof fn lemma_hard_split_tiles(acc: Seq<(int, int)>, rest: int, cols: int, end: int)
    requires
        tiles(acc, end, cols),
        cols > 0,
        rest >= 0,
    ensures
        tiles(hard_split(acc, rest, cols), end + rest, cols),
    decreases rest,
{
    if rest > 0 {
        let piece = if rest < cols { rest } else { cols };
        let next = acc.push((end, end + piece));
        assert(tiles(next, end + piece, cols)) by {
            assert forall|k: int| 0 <= k < next.len() - 1 implies #[trigger] next[k].1 == next[k + 1].0 by {
                if k < acc.len() - 1 {
                    assert(next[k] == acc[k] && next[k + 1] == acc[k + 1]);
                }
            }
        }
        lemma_hard_split_tiles(next, rest - piece, cols, end + piece);
    }
}

/// Placing a word keeps the ranges a tiling, now up to the word's end.
pub proof fn lemma_place_word_tiles(acc: Seq<(int, int)>, w: int, cols: int, end: int)
    requires
        tiles(acc, end, cols),
        cols > 0,
        w > 0,
    ensures
        tiles(place_word(acc, w, cols), end + w, cols),
{
    let last = acc.last();
    let k = acc.len() - 1;
    assert(acc[k] == last);
    if w > cols {
        let used = cols - (last.1 - last.0);
        let upd = acc.update(k, (last.0, last.1 + used));
        assert(tiles(upd, end + used, cols)) by {
            assert forall|m: int| 0 <= m < upd.len() - 1 implies #[trigger] upd[m].1 == upd[m + 1].0 by {
                assert(upd[m] == acc[m]);
                if m + 1 < k {
                    assert(upd[m + 1] == acc[m + 1]);
                }
            }
        }
        lemma_hard_split_tiles(upd, w - used, cols, end + used);
    } else if last.1 + w - last.0 > cols {
        let next = acc.push((last.1, last.1 + w));
        assert(tiles(next, end + w, cols)) by {
            assert forall|m: int| 0 <= m < next.len() - 1 implies #[trigger] next[m].1 == next[m + 1].0 by {
                if m < acc.len() - 1 {
                    assert(next[m] == acc[m] && next[m + 1] == acc[m + 1]);
                }
            }
        }
    } else {
        let upd = acc.update(k, (last.0, last.1 + w));
        assert(tiles(upd, end + w, cols)) by {
            assert forall|m: int| 0 <= m < upd.len() - 1 implies #[trigger] upd[m].1 == upd[m + 1].0 by {
                assert(upd[m] == acc[m]);
                if m + 1 < k {
                    assert(upd[m + 1] == acc[m + 1]);
                }
            }
        }
    }
}

proof fn lemma_wrap_from_tiles(s: Seq<char>, i: int, acc: Seq<(int, int)>, cols: int)
    requires
        0 <= i <= s.len(),
        tiles(acc, i, cols),
        cols > 0,
    ensures
        tiles(wrap_from(s, i, acc, cols), s.len() as int, cols),
    decreases s.len() - i,
{
    if i < s.len() {
        let j = word_end(s, i);
        lemma_word_end(s, i);
        lemma_place_word_tiles(acc, j - i, cols, i);
        lemma_wrap_from_tiles(s, j, place_word(acc, j - i, cols), cols);
    }
}

/// The wrapped ranges of a line tile it from its start to its end, in
/// order, and none is wider than the column count.
pub proof fn lemma_wrap_tiles(s: Seq<char>, cols: int)
    requires
        cols > 0,
    ensures
        tiles(wrap_of(s, cols), s.len() as int, cols),
{
    lemma_wrap_from_tiles(s, 0, seq![(0int, 0int)], cols);
}

/// Every range of a tiling lies within the tiled span.
pub proof fn lemma_tiles_within(r: Seq<(int, int)>, end: int, cols: int)
    requires
        tiles(r, end, cols),
    ensures
        forall|k: int| 0 <= k < r.len() ==> 0 <= #[trigger] r[k].0 && r[k].1 <= end,
{
    assert forall|k: int| 0 <= k < r.len() implies 0 <= #[trigger] r[k].0 && r[k].1 <= end by {
        lemma_tiles_from(r, end, cols, k);
    }
}

proof fn lemma_tiles_from(r: Seq<(int, int)>, end: int, cols: int, k: int)
    requires
        tiles(r, end, cols),
        0 <= k < r.len(),
    ensures
        0 <= r[k].0,
        r[k].1 <= end,
    decreases r.len() - k,
{
    if k + 1 < r.len() {
        lemma_tiles_from(r, end, cols, k + 1);
    }
    lemma_tiles_up(r, end, cols, k);
}

proof fn lemma_tiles_up(r: Seq<(int, int)>, end: int, cols: int, k: int)
    requires
        tiles(r, end, cols),
        0 <= k < r.len(),
    ensures
        0 <= r[k].0,
    decreases k,
{
    if k > 0 {
        lemma_tiles_up(r, end, cols, k - 1);
        assert(r[k - 1].1 == r[k].0);
    }
}

/// The ranges of a `Vec` of pairs, as integers.
pub open spec fn ranges_view(v: Seq<(usize, usize)>) -> Seq<(int, int)> {
    v.map_values(|p: (usize, usize)| (p.0 as int, p.1 as int))
}

/// Split `line` into ranges `(start, end)` of at most `cols` characters,
/// breaking after spaces and tabs where possible and inside a word only
/// where the word alone is wider than `cols`.
pub fn wrap_line(line: &Vec<char>, cols: usize) -> (r: Vec<(usize, usize)>)
    requires
        cols > 0,
    ensures
        ranges_view(r@) == wrap_of(line@, cols as int),
        tiles(ranges_view(r@), line@.len() as int, cols as int),
{
    let n = line.len();
    let ghost s = line@;
    let mut acc: Vec<(usize, usize)> = Vec::new();
    acc.push((0, 0));
    let mut i: usize = 0;
    proof {
        assert(ranges_view(acc@) =~= seq![(0int, 0int)]);
    }
    while i < n
        invariant
            n == s.len(),
            s == line@,
            cols > 0,
            0 <= i <= n,
            tiles(ranges_view(acc@), i as int, cols as int),
            wrap_from(s, i as int, ranges_view(acc@), cols as int) == wrap_of(s, cols as int),
        decreases n - i,
    {
        let mut j: usize = i;
        while j < n && !(line[j] == ' ' || line[j] == '\t')
            invariant
                n == s.len(),
                s == line@,
                i <= j <= n,
                i < n,
                word_end(s, i as int) == word_end(s, j as int),
            decreases n - j,
        {
            j = j + 1;
        }
        if j < n {
            j = j + 1;
        }
        proof {
            lemma_word_end(s, i as int);
        }
        assert(j as int == word_end(s, i as int));
        let w = j - i;
        let ghost before = ranges_view(acc@);
        proof {
            lemma_place_word_tiles(before, w as int, cols as int, i as int);
        }
        let k = acc.len() - 1;
        let last = acc[k];
        assert(before.last() == (last.0 as int, last.1 as int));
        if w > cols {
            let used = cols - (last.1 - last.0);
            acc.set(k, (last.0, last.1 + used));
            let mut rest = w - used;
            let ghost target = place_word(before, w as int, cols as int);
            proof {
                assert(ranges_view(acc@) =~= before.update(k as int, (last.0 as int, last.1 as int + used)));
            }
            while rest > 0
                invariant
                    cols > 0,
                    acc@.len() >= 1,
                    hard_split(ranges_view(acc@), rest as int, cols as int) == target,
                    tiles(ranges_view(acc@), j - rest, cols as int),
                    rest <= j,
                    j <= n,
                decreases rest,
            {
                let end = acc[acc.len() - 1].1;
                let piece = if rest < cols { rest } else { cols };
                let ghost prev = ranges_view(acc@);
                assert(prev.last().1 == end as int);
                acc.push((end, end + piece));
                proof {
                    assert(ranges_view(acc@) =~= prev.push((end as int, end + piece)));
                    lemma_hard_split_tiles(prev, piece as int, cols as int, j - rest);
                    assert(hard_split(prev.push((end as int, end + piece)), 0, cols as int)
                        == prev.push((end as int, end + piece)));
                }
                rest = rest - piece;
            }
        } else if last.1 + w - last.0 > cols {
            acc.push((last.1, last.1 + w));
            proof {
                assert(ranges_view(acc@) =~= before.push((last.1 as int, last.1 + w)));
            }
        } else {
            acc.set(k, (last.0, last.1 + w));
            proof {
                assert(ranges_view(acc@) =~= before.update(k as int, (last.0 as int, last.1 + w)));
            }
        }
        i = j;
    }
    acc
}

} // verus!

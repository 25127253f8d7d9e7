use crate::change::{bytes_eq, sub_bytes};
use vstd::prelude::*;

verus! {

/// Position of the first newline byte of `b`, if any.
pub open spec fn find_nl(b: Seq<u8>) -> Option<nat>
    decreases b.len(),
{
    if b.len() == 0 {
        None
    } else if b[0] == 10u8 {
        Some(0nat)
    } else {
        match find_nl(b.drop_first()) {
            Some(i) => Some((i + 1) as nat),
            None => None,
        }
    }
}

/// `find_nl` names the first newline: it is in range, it is a newline, and
/// nothing before it is one; `None` means there is no newline at all.
pub proof fn lemma_find_nl(b: Seq<u8>)
    ensures
        match find_nl(b) {
            Some(i) => i < b.len() && b[i as int] == 10u8 && forall|j: int|
                0 <= j < i ==> b[j] != 10u8,
            None => forall|j: int| 0 <= j < b.len() ==> b[j] != 10u8,
        },
    decreases b.len(),
{
    if b.len() > 0 && b[0] != 10u8 {
        let d = b.drop_first();
        lemma_find_nl(d);
        assert(forall|j: int| 0 <= j < d.len() ==> d[j] == b[j + 1]);
        match find_nl(d) {
            Some(i2) => {
                assert(find_nl(b) == Some((i2 + 1) as nat));
                assert(b[i2 as int + 1] == d[i2 as int]);
                assert forall|j: int| 0 <= j < i2 + 1 implies b[j] != 10u8 by {
                    if j > 0 {
                        assert(d[j - 1] != 10u8);
                    }
                }
            },
            None => {
                assert forall|j: int| 0 <= j < b.len() implies b[j] != 10u8 by {
                    if j > 0 {
                        assert(d[j - 1] != 10u8);
                    }
                }
            },
        }
    }
}

/// The first newline is at `k` when `k` holds a newline and nothing before
/// it does.
pub proof fn lemma_find_nl_at(b: Seq<u8>, k: int)
    requires
        0 <= k < b.len(),
        b[k] == 10u8,
        forall|j: int| 0 <= j < k ==> b[j] != 10u8,
    ensures
        find_nl(b) == Some(k as nat),
    decreases b.len(),
{
    if k > 0 {
        assert(forall|j: int| 0 <= j < b.drop_first().len() ==> b.drop_first()[j] == b[j + 1]);
        lemma_find_nl_at(b.drop_first(), k - 1);
    }
}

/// The line decomposition of a byte sequence: each line keeps its trailing
/// newline; the fragment after the last newline is kept only when nonempty,
/// except that the empty input yields exactly one empty line.
pub open spec fn split_lines(b: Seq<u8>) -> Seq<Seq<u8>>
    decreases b.len(),
    via split_lines_decreases
{
    if b.len() == 0 {
        seq![Seq::<u8>::empty()]
    } else {
        match find_nl(b) {
            None => seq![b],
            Some(i) => {
                let rest = b.skip(i as int + 1);
                if rest.len() == 0 {
                    seq![b.take(i as int + 1)]
                } else {
                    seq![b.take(i as int + 1)] + split_lines(rest)
                }
            },
        }
    }
}

#[via_fn]
proof fn split_lines_decreases(b: Seq<u8>) {
    lemma_find_nl(b);
}

/// Concatenation of a sequence of lines.
pub open spec fn join(ls: Seq<Seq<u8>>) -> Seq<u8>
    decreases ls.len(),
{
    if ls.len() == 0 {
        Seq::empty()
    } else {
        ls.first() + join(ls.drop_first())
    }
}

/// Splitting loses nothing: joining the lines of `b` reproduces `b`
/// exactly.
pub proof fn lemma_split_join(b: Seq<u8>)
    ensures
        join(split_lines(b)) == b,
    decreases b.len(),
{
    if b.len() == 0 {
        let t = seq![Seq::<u8>::empty()];
        assert(split_lines(b) =~= t);
        assert(t.drop_first() =~= Seq::<Seq<u8>>::empty());
        assert(join(Seq::<Seq<u8>>::empty()) =~= Seq::<u8>::empty());
        assert(join(t) =~= b);
    } else {
        lemma_find_nl(b);
        match find_nl(b) {
            None => {
                assert(seq![b].drop_first() =~= Seq::<Seq<u8>>::empty());
                assert(join(Seq::<Seq<u8>>::empty()) =~= Seq::<u8>::empty());
                assert(join(seq![b]) =~= b);
            },
            Some(i) => {
                let rest = b.skip(i as int + 1);
                if rest.len() == 0 {
                    let t = seq![b.take(i as int + 1)];
                    assert(t.drop_first() =~= Seq::<Seq<u8>>::empty());
                    assert(join(Seq::<Seq<u8>>::empty()) =~= Seq::<u8>::empty());
                    assert(join(t) =~= b.take(i as int + 1));
                    assert(b.take(i as int + 1) =~= b);
                } else {
                    lemma_split_join(rest);
                    let s = seq![b.take(i as int + 1)] + split_lines(rest);
                    assert(s.first() == b.take(i as int + 1));
                    assert(s.drop_first() =~= split_lines(rest));
                    assert(join(s) == b.take(i as int + 1) + join(split_lines(rest)));
                    assert(b.take(i as int + 1) + rest =~= b);
                }
            },
        }
    }
}

/// What the scan still owes once the consumed prefix ends at `cur`: nothing
/// when a final newline closed the input, the remaining lines otherwise.
pub open spec fn tail_split(b: Seq<u8>, cur: int) -> Seq<Seq<u8>> {
    if cur == b.len() && b.len() > 0 {
        Seq::empty()
    } else {
        split_lines(b.skip(cur))
    }
}

/// Splits a byte buffer into newline-terminated lines, keeping the line
/// endings, so that concatenating the result reproduces the input exactly.
pub fn lines(input: &Vec<u8>) -> (r: Vec<Vec<u8>>)
    ensures
        r.deep_view() == split_lines(input@),
{
    let ghost b = input@;
    let n = input.len();
    let mut ret: Vec<Vec<u8>> = Vec::new();
    let mut cur: usize = 0;
    let mut i: usize = 0;
    proof {
        assert(b.skip(0) =~= b);
    }
    while i < n
        invariant
            b == input@,
            n == b.len(),
            cur <= i <= n,
            forall|j: int| cur <= j < i ==> b[j] != 10u8,
            split_lines(b) =~= ret.deep_view() + tail_split(b, cur as int),
        decreases n - i,
    {
        if input[i] == 10u8 {
            let line = sub_bytes(input, cur, i + 1);
            proof {
                let s = b.skip(cur as int);
                assert(forall|j: int| 0 <= j < i - cur ==> s[j] == b[j + cur]);
                lemma_find_nl_at(s, i - cur);
                assert(s.take(i - cur + 1) =~= b.subrange(cur as int, i + 1));
                assert(s.skip(i - cur + 1) =~= b.skip(i + 1));
                if i + 1 == n {
                    assert(split_lines(s) =~= seq![line@]);
                    assert(tail_split(b, cur as int) =~= seq![line@] + tail_split(b, i + 1));
                } else {
                    assert(split_lines(s) =~= seq![line@] + split_lines(b.skip(i + 1)));
                    assert(tail_split(b, cur as int) =~= seq![line@] + tail_split(b, i + 1));
                }
            }
            let ghost pre = ret.deep_view();
            ret.push(line);
            proof {
                assert(line.deep_view() =~= line@);
                assert(ret.deep_view() =~= pre.push(line@));
                assert(split_lines(b) =~= ret.deep_view() + tail_split(b, i + 1));
            }
            cur = i + 1;
        }
        i += 1;
    }
    if n == 0 || cur < n {
        let line = sub_bytes(input, cur, n);
        proof {
            if n > 0 {
                let s = b.skip(cur as int);
                assert(forall|j: int| 0 <= j < s.len() ==> s[j] == b[j + cur]);
                lemma_find_nl(s);
                if find_nl(s) is Some {
                    let k = find_nl(s)->Some_0;
                    assert(b[k + cur] == 10u8);
                    assert(false);
                }
                assert(s =~= b.subrange(cur as int, n as int));
                assert(tail_split(b, cur as int) =~= seq![line@]);
            } else {
                assert(line@ =~= Seq::<u8>::empty());
                assert(tail_split(b, 0) =~= seq![line@]);
            }
        }
        let ghost pre = ret.deep_view();
        ret.push(line);
        proof {
            assert(line.deep_view() =~= line@);
            assert(ret.deep_view() =~= pre.push(line@));
            assert(split_lines(b) =~= ret.deep_view());
        }
    }
    ret
}

/// One step of a line-level edit script.
#[derive(Clone, Copy, Debug, PartialEq, Eq, Structural)]
pub enum LineDiff {
    /// Line `0` of the old file is kept as line `1` of the new file.
    Keep(usize, usize),
    /// Line `0` of the new file is inserted here.
    New(usize),
    /// Line `0` of the old file is deleted.
    Delete(usize),
}

/// A correct edit script from position `(i, j)` on: it walks the remaining
/// old lines (through keeps and deletes) and the remaining new lines
/// (through keeps and inserts) in order, to their ends, and every kept pair
/// holds equal lines.
pub open spec fn valid_script(
    s: Seq<LineDiff>,
    a: Seq<Seq<u8>>,
    b: Seq<Seq<u8>>,
    i: int,
    j: int,
) -> bool
    decreases s.len(),
{
    if s.len() == 0 {
        i == a.len() && j == b.len()
    } else {
        match s.first() {
            LineDiff::Keep(oi, nj) => oi == i && nj == j && 0 <= i < a.len() && 0 <= j < b.len()
                && a[i] == b[j] && valid_script(s.drop_first(), a, b, i + 1, j + 1),
            LineDiff::Delete(oi) => oi == i && 0 <= i < a.len() && valid_script(
                s.drop_first(),
                a,
                b,
                i + 1,
                j,
            ),
            LineDiff::New(nj) => nj == j && 0 <= j < b.len() && valid_script(
                s.drop_first(),
                a,
                b,
                i,
                j + 1,
            ),
        }
    }
}

/// The lines that applying an edit script to the old file produces: kept
/// lines are taken from the old file, inserted ones from the new.
pub open spec fn replay(s: Seq<LineDiff>, a: Seq<Seq<u8>>, b: Seq<Seq<u8>>) -> Seq<Seq<u8>>
    decreases s.len(),
{
    if s.len() == 0 {
        Seq::empty()
    } else {
        match s.first() {
            LineDiff::Keep(oi, nj) => seq![a[oi as int]] + replay(s.drop_first(), a, b),
            LineDiff::Delete(oi) => replay(s.drop_first(), a, b),
            LineDiff::New(nj) => seq![b[nj as int]] + replay(s.drop_first(), a, b),
        }
    }
}

proof fn lemma_replay_from(s: Seq<LineDiff>, a: Seq<Seq<u8>>, b: Seq<Seq<u8>>, i: int, j: int)
    requires
        valid_script(s, a, b, i, j),
    ensures
        replay(s, a, b) == b.skip(j),
    decreases s.len(),
{
    if s.len() == 0 {
        assert(b.skip(j) =~= Seq::<Seq<u8>>::empty());
    } else {
        match s.first() {
            LineDiff::Keep(oi, nj) => {
                lemma_replay_from(s.drop_first(), a, b, i + 1, j + 1);
                assert(replay(s, a, b) =~= seq![b[j]] + b.skip(j + 1));
                assert(seq![b[j]] + b.skip(j + 1) =~= b.skip(j));
            },
            LineDiff::Delete(oi) => {
                lemma_replay_from(s.drop_first(), a, b, i + 1, j);
            },
            LineDiff::New(nj) => {
                lemma_replay_from(s.drop_first(), a, b, i, j + 1);
                assert(replay(s, a, b) =~= seq![b[j]] + b.skip(j + 1));
                assert(seq![b[j]] + b.skip(j + 1) =~= b.skip(j));
            },
        }
    }
}

/// A valid edit script really transforms the old file into the new one:
/// replaying it, taking kept lines from the old file, yields exactly the
/// new file.
pub proof fn lemma_script_applies(s: Seq<LineDiff>, a: Seq<Seq<u8>>, b: Seq<Seq<u8>>)
    requires
        valid_script(s, a, b, 0, 0),
    ensures
        replay(s, a, b) == b,
{
    lemma_replay_from(s, a, b, 0, 0);
    assert(b.skip(0) =~= b);
}

/// A line-level edit script from `a` to `b`, by the classic
/// longest-common-subsequence dynamic program. The script is valid: applied
/// to `a` it yields exactly `b`; and diffing a file against itself keeps
/// every line.
#[verifier::rlimit(60)]
pub fn diff(a: &Vec<Vec<u8>>, b: &Vec<Vec<u8>>) -> (r: Vec<LineDiff>)
    requires
        a@.len() < usize::MAX,
        b@.len() < usize::MAX,
    ensures
        valid_script(r@, a.deep_view(), b.deep_view(), 0, 0),
        a.deep_view() == b.deep_view() ==> forall|k: int| 0 <= k < r@.len() ==> r@[k] is Keep,
{
    let ghost adv = a.deep_view();
    let ghost bdv = b.deep_view();
    let n = a.len();
    let m = b.len();
    proof {
        assert(adv.len() == n);
        assert(bdv.len() == m);
    }
    let mut dp: Vec<Vec<usize>> = Vec::new();
    let mut row0: Vec<usize> = Vec::new();
    let mut j0: usize = 0;
    while j0 < m + 1
        invariant
            m < usize::MAX,
            j0 <= m + 1,
            row0@.len() == j0,
            forall|c: int| 0 <= c < j0 ==> row0@[c] <= c,
        decreases m + 1 - j0,
    {
        row0.push(0);
        j0 += 1;
    }
    dp.push(row0);
    let mut i: usize = 1;
    while i < n + 1
        invariant
            n < usize::MAX,
            m < usize::MAX,
            n == a@.len(),
            m == b@.len(),
            1 <= i <= n + 1,
            dp@.len() == i,
            forall|r_: int| 0 <= r_ < i ==> (#[trigger] dp@[r_])@.len() == m + 1,
            forall|r_: int, c: int|
                0 <= r_ < i && 0 <= c < m + 1 ==> (#[trigger] dp@[r_]@[c]) <= c,
        decreases n + 1 - i,
    {
        let mut row: Vec<usize> = Vec::new();
        row.push(0);
        let mut j: usize = 1;
        while j < m + 1
            invariant
                n < usize::MAX,
                m < usize::MAX,
                n == a@.len(),
                m == b@.len(),
                1 <= i <= n,
                1 <= j <= m + 1,
                dp@.len() == i,
                forall|r_: int| 0 <= r_ < i ==> (#[trigger] dp@[r_])@.len() == m + 1,
                forall|r_: int, c: int|
                    0 <= r_ < i && 0 <= c < m + 1 ==> (#[trigger] dp@[r_]@[c]) <= c,
                row@.len() == j,
                forall|c: int| 0 <= c < j ==> (#[trigger] row@[c]) <= c,
            decreases m + 1 - j,
        {
            let v: usize = if bytes_eq(&a[i - 1], &b[j - 1]) {
                dp[i - 1][j - 1] + 1
            } else {
                let x = dp[i - 1][j];
                let y = row[j - 1];
                if x >= y {
                    x
                } else {
                    y
                }
            };
            row.push(v);
            j += 1;
        }
        dp.push(row);
        i += 1;
    }
    let mut rev: Vec<LineDiff> = Vec::new();
    let mut bi: usize = n;
    let mut bj: usize = m;
    proof {
        assert(rev@.reverse() =~= Seq::<LineDiff>::empty());
    }
    while bi > 0 || bj > 0
        invariant
            n == a@.len(),
            m == b@.len(),
            adv == a.deep_view(),
            bdv == b.deep_view(),
            adv.len() == n,
            bdv.len() == m,
            bi <= n,
            bj <= m,
            dp@.len() == n + 1,
            forall|r_: int| 0 <= r_ < n + 1 ==> (#[trigger] dp@[r_])@.len() == m + 1,
            valid_script(rev@.reverse(), adv, bdv, bi as int, bj as int),
            adv == bdv ==> bi == bj,
            adv == bdv ==> forall|k: int| 0 <= k < rev@.len() ==> rev@[k] is Keep,
        decreases bi + bj,
    {
        let ghost old_rev = rev@;
        let take_keep = bi > 0 && bj > 0 && bytes_eq(&a[bi - 1], &b[bj - 1]);
        if take_keep {
            let op = LineDiff::Keep(bi - 1, bj - 1);
            rev.push(op);
            proof {
                let s2 = seq![op] + old_rev.reverse();
                assert(rev@.reverse() =~= s2);
                assert(s2.first() == op);
                assert(s2.drop_first() =~= old_rev.reverse());
                assert(a@[bi - 1].deep_view() =~= a@[bi - 1]@);
                assert(b@[bj - 1].deep_view() =~= b@[bj - 1]@);
                assert(adv[bi - 1] == bdv[bj - 1]);
                assert(valid_script(s2, adv, bdv, bi - 1, bj - 1));
            }
            bi -= 1;
            bj -= 1;
        } else if bi > 0 && (bj == 0 || dp[bi - 1][bj] >= dp[bi][bj - 1]) {
            proof {
                if adv == bdv {
                    assert(bi == bj);
                    assert(bj > 0);
                    assert(adv[bi - 1] == bdv[bj - 1]);
                    assert(a@[bi - 1].deep_view() =~= a@[bi - 1]@);
                    assert(b@[bj - 1].deep_view() =~= b@[bj - 1]@);
                    assert(take_keep);
                    assert(false);
                }
            }
            let op = LineDiff::Delete(bi - 1);
            rev.push(op);
            proof {
                let s2 = seq![op] + old_rev.reverse();
                assert(rev@.reverse() =~= s2);
                assert(s2.first() == op);
                assert(s2.drop_first() =~= old_rev.reverse());
                assert(valid_script(s2, adv, bdv, bi - 1, bj as int));
            }
            bi -= 1;
        } else {
            proof {
                assert(bj > 0);
                if adv == bdv {
                    assert(bi == bj);
                    if bi > 0 {
                        assert(adv[bi - 1] == bdv[bj - 1]);
                        assert(a@[bi - 1].deep_view() =~= a@[bi - 1]@);
                        assert(b@[bj - 1].deep_view() =~= b@[bj - 1]@);
                        assert(take_keep);
                    }
                    assert(false);
                }
            }
            let op = LineDiff::New(bj - 1);
            rev.push(op);
            proof {
                let s2 = seq![op] + old_rev.reverse();
                assert(rev@.reverse() =~= s2);
                assert(s2.first() == op);
                assert(s2.drop_first() =~= old_rev.reverse());
                assert(valid_script(s2, adv, bdv, bi as int, bj - 1));
            }
            bj -= 1;
        }
    }
    let len = rev.len();
    let mut out: Vec<LineDiff> = Vec::new();
    let mut k: usize = 0;
    while k < len
        invariant
            len == rev@.len(),
            k <= len,
            out@.len() == k,
            forall|t: int| 0 <= t < k ==> out@[t] == rev@[len - 1 - t],
        decreases len - k,
    {
        out.push(rev[len - 1 - k]);
        k += 1;
    }
    proof {
        assert(out@ =~= rev@.reverse());
    }
    out
}

} // verus!

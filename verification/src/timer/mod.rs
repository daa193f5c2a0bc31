//! Pattern search over a command's output and the conversion of resource usage
//! counters into timings.

use vstd::prelude::*;

use crate::util::double::{micros_seconds_units, micros_to_seconds};
use crate::util::units::Second;

verus! {

/// The last `k` bytes of `t` are the first `k` bytes of `p`.
pub open spec fn ends_with(t: Seq<u8>, p: Seq<u8>, k: int) -> bool {
    &&& 0 <= k <= p.len()
    &&& k <= t.len()
    &&& t.subrange(t.len() - k, t.len() as int) == p.subrange(0, k)
}

/// `k` is the length of a border of the first `n` bytes of `p`: a proper prefix
/// of them that is also a suffix of them.
pub open spec fn is_border(p: Seq<u8>, n: int, k: int) -> bool {
    &&& 0 <= k < n <= p.len()
    &&& ends_with(p.subrange(0, n), p, k)
}

/// `k` is the length of the longest border of the first `n` bytes of `p`.
pub open spec fn is_longest_border(p: Seq<u8>, n: int, k: int) -> bool {
    &&& is_border(p, n, k)
    &&& forall|m: int| k < m < n ==> !#[trigger] is_border(p, n, m)
}

/// `p` occurs somewhere in `t` as a contiguous run of bytes.
pub open spec fn occurs_in(t: Seq<u8>, p: Seq<u8>) -> bool {
    exists|e: int| p.len() <= e <= t.len() && #[trigger] ends_with(t.subrange(0, e), p, p.len() as int)
}

proof fn lemma_ends_with_push(t: Seq<u8>, p: Seq<u8>, c: u8, k: int)
    requires
        0 <= k,
    ensures
        ends_with(t.push(c), p, k + 1) <==> (ends_with(t, p, k) && k < p.len() && p[k] == c),
{
    let t2 = t.push(c);
    let l = t.len() as int;
    if ends_with(t2, p, k + 1) {
        let s = t2.subrange(l - k, l + 1);
        assert(t.subrange(l - k, l) =~= s.subrange(0, k));
        assert(p.subrange(0, k) =~= p.subrange(0, k + 1).subrange(0, k));
        assert(s[k] == c);
        assert(p.subrange(0, k + 1)[k] == p[k]);
    }
    if ends_with(t, p, k) && k < p.len() && p[k] == c {
        assert(t2.subrange(l - k, l + 1) =~= t.subrange(l - k, l).push(c));
        assert(p.subrange(0, k + 1) =~= p.subrange(0, k).push(p[k]));
    }
}

proof fn lemma_two_matches_border(t: Seq<u8>, p: Seq<u8>, j: int, k: int)
    requires
        ends_with(t, p, j),
        ends_with(t, p, k),
        0 <= k < j,
    ensures
        is_border(p, j, k),
{
    let l = t.len() as int;
    let pj = p.subrange(0, j);
    assert(t.subrange(l - k, l) =~= t.subrange(l - j, l).subrange(j - k, j));
    assert(pj.subrange(j - k, j) =~= t.subrange(l - k, l));
}

proof fn lemma_border_match(t: Seq<u8>, p: Seq<u8>, j: int, k: int)
    requires
        ends_with(t, p, j),
        is_border(p, j, k),
    ensures
        ends_with(t, p, k),
{
    let l = t.len() as int;
    let pj = p.subrange(0, j);
    assert(t.subrange(l - k, l) =~= t.subrange(l - j, l).subrange(j - k, j));
    assert(pj.subrange(j - k, j) =~= t.subrange(l - k, l));
}

/// Pushing one byte onto a text can lengthen a match by at most one, and only
/// along a candidate whose next pattern byte is the pushed one.
proof fn lemma_push_bound(t: Seq<u8>, p: Seq<u8>, j: int, c: u8, bound: int, m: int)
    requires
        0 <= j < bound <= p.len(),
        1 <= m,
        m - 1 < bound,
        ends_with(t.push(c), p, m),
        forall|k: int| j < k < bound && #[trigger] ends_with(t, p, k) ==> p[k] != c,
    ensures
        m <= j + 1,
        m == j + 1 ==> p[j] == c,
{
    lemma_ends_with_push(t, p, c, m - 1);
    if m - 1 > j {
        assert(ends_with(t, p, m - 1));
    }
}

proof fn lemma_ends_with_empty(t: Seq<u8>, p: Seq<u8>)
    ensures
        ends_with(t, p, 0),
{
    assert(t.subrange(t.len() as int, t.len() as int) =~= p.subrange(0, 0));
}

proof fn lemma_full_match_occurs(t: Seq<u8>, p: Seq<u8>)
    requires
        ends_with(t, p, p.len() as int),
    ensures
        occurs_in(t, p),
{
    assert(t.subrange(0, t.len() as int) =~= t);
    assert(ends_with(t.subrange(0, t.len() as int), p, p.len() as int));
}

proof fn lemma_occurs_push(t: Seq<u8>, p: Seq<u8>, c: u8)
    ensures
        occurs_in(t.push(c), p) <==> (occurs_in(t, p) || ends_with(t.push(c), p, p.len() as int)),
{
    let t2 = t.push(c);
    let l = t.len() as int;
    if occurs_in(t2, p) {
        let e = choose|e: int| p.len() <= e <= t2.len() && #[trigger] ends_with(t2.subrange(0, e), p, p.len() as int);
        if e <= l {
            assert(t2.subrange(0, e) =~= t.subrange(0, e));
            assert(ends_with(t.subrange(0, e), p, p.len() as int));
        } else {
            assert(t2.subrange(0, e) =~= t2);
        }
    }
    if occurs_in(t, p) {
        let e = choose|e: int| p.len() <= e <= t.len() && #[trigger] ends_with(t.subrange(0, e), p, p.len() as int);
        assert(t2.subrange(0, e) =~= t.subrange(0, e));
        assert(ends_with(t2.subrange(0, e), p, p.len() as int));
    }
    if ends_with(t2, p, p.len() as int) {
        lemma_full_match_occurs(t2, p);
    }
}

/// Once the pattern has occurred in the output, it stays found however much
/// more output follows.
pub proof fn lemma_occurs_extend(t: Seq<u8>, u: Seq<u8>, p: Seq<u8>)
    requires
        occurs_in(t, p),
    ensures
        occurs_in(t + u, p),
{
    let e = choose|e: int| p.len() <= e <= t.len() && #[trigger] ends_with(t.subrange(0, e), p, p.len() as int);
    assert((t + u).subrange(0, e) =~= t.subrange(0, e));
    assert(ends_with((t + u).subrange(0, e), p, p.len() as int));
}

/// Feeding the output in two chunks `a` then `b` asks the same question as
/// feeding `a + b` at once: whether the pattern occurs in everything seen; and
/// when it did not occur after `a`, it occurs after `b` exactly when an
/// occurrence ends inside `b`.
pub proof fn lemma_chunk_boundaries_irrelevant(seen: Seq<u8>, a: Seq<u8>, b: Seq<u8>, p: Seq<u8>)
    ensures
        (seen + a) + b == seen + (a + b),
        !occurs_in(seen + a, p) ==> (occurs_in(seen + a + b, p) <==> exists|e: int|
            (seen + a).len() < e <= (seen + a + b).len() && p.len() <= e
                && #[trigger] ends_with((seen + a + b).subrange(0, e), p, p.len() as int)),
{
    assert((seen + a) + b =~= seen + (a + b));
    let t = seen + a + b;
    let l = (seen + a).len() as int;
    if !occurs_in(seen + a, p) && occurs_in(t, p) {
        let e = choose|e: int| p.len() <= e <= t.len() && #[trigger] ends_with(t.subrange(0, e), p, p.len() as int);
        if e <= l {
            assert(t.subrange(0, e) =~= (seen + a).subrange(0, e));
            assert(ends_with((seen + a).subrange(0, e), p, p.len() as int));
        }
    }
}

/// The pattern occurs in the output exactly when some window of the output,
/// as long as the pattern, equals it.
pub proof fn lemma_occurs_in_window(t: Seq<u8>, p: Seq<u8>)
    ensures
        occurs_in(t, p) <==> exists|i: int|
            0 <= i && i + p.len() <= t.len() && #[trigger] t.subrange(i, i + p.len()) == p,
{
    let l = p.len() as int;
    if occurs_in(t, p) {
        let e = choose|e: int| p.len() <= e <= t.len() && #[trigger] ends_with(t.subrange(0, e), p, l);
        assert(t.subrange(0, e).subrange(e - l, e) =~= t.subrange(e - l, e));
        assert(p.subrange(0, l) =~= p);
        assert(t.subrange(e - l, (e - l) + l) == p);
    }
    if exists|i: int| 0 <= i && i + p.len() <= t.len() && #[trigger] t.subrange(i, i + p.len()) == p {
        let i = choose|i: int| 0 <= i && i + p.len() <= t.len() && #[trigger] t.subrange(i, i + p.len()) == p;
        let e = i + l;
        assert(t.subrange(0, e).subrange(e - l, e) =~= t.subrange(i, e));
        assert(p.subrange(0, l) =~= p);
        assert(ends_with(t.subrange(0, e), p, l));
    }
}

/// A border of length `k` of the first `n` bytes of the pattern: its first
/// `k` bytes equal its `k` bytes ending at `n`, and `k < n`.
pub proof fn lemma_border_window(p: Seq<u8>, n: int, k: int)
    ensures
        is_border(p, n, k) <==> (0 <= k < n <= p.len() && p.subrange(n - k, n) == p.subrange(0, k)),
{
    if 0 <= k < n <= p.len() {
        assert(p.subrange(0, n).subrange(n - k, n) =~= p.subrange(n - k, n));
    }
}

/// The output read in `chunks`, one after another.
pub open spec fn flatten(chunks: Seq<Seq<u8>>) -> Seq<u8>
    decreases chunks.len(),
{
    if chunks.len() == 0 {
        Seq::empty()
    } else {
        flatten(chunks.drop_last()) + chunks.last()
    }
}

proof fn lemma_flatten_prefix(chunks: Seq<Seq<u8>>, j: int)
    requires
        0 <= j <= chunks.len(),
    ensures
        flatten(chunks.take(j)).len() <= flatten(chunks).len(),
        flatten(chunks) == flatten(chunks.take(j)) + flatten(chunks).subrange(
            flatten(chunks.take(j)).len() as int,
            flatten(chunks).len() as int,
        ),
    decreases chunks.len(),
{
    let f = flatten(chunks);
    if j == chunks.len() {
        assert(chunks.take(j) =~= chunks);
        assert(f =~= f + f.subrange(f.len() as int, f.len() as int));
    } else {
        let init = chunks.drop_last();
        assert(init.take(j) =~= chunks.take(j));
        lemma_flatten_prefix(init, j);
        let g = flatten(init);
        let h = flatten(chunks.take(j));
        assert(f == g + chunks.last());
        assert(f =~= h + f.subrange(h.len() as int, f.len() as int));
    }
}

/// Reading the output in chunks finds the pattern on some read exactly when
/// it occurs in all the output read: a match that straddles read boundaries is
/// found, and however the same output is cut into chunks, the verdict is the
/// same (see [`lemma_same_output_same_verdict`]).
pub proof fn lemma_any_chunking(p: Seq<u8>, chunks: Seq<Seq<u8>>)
    requires
        p.len() > 0,
    ensures
        (exists|i: int| 0 <= i < chunks.len() && #[trigger] occurs_in(flatten(chunks.take(i + 1)), p))
            <==> occurs_in(flatten(chunks), p),
{
    if exists|i: int| 0 <= i < chunks.len() && #[trigger] occurs_in(flatten(chunks.take(i + 1)), p) {
        let i = choose|i: int| 0 <= i < chunks.len() && #[trigger] occurs_in(flatten(chunks.take(i + 1)), p);
        lemma_flatten_prefix(chunks, i + 1);
        let f = flatten(chunks);
        let h = flatten(chunks.take(i + 1));
        lemma_occurs_extend(h, f.subrange(h.len() as int, f.len() as int), p);
    }
    if occurs_in(flatten(chunks), p) {
        if chunks.len() == 0 {
            let e = choose|e: int| p.len() <= e <= flatten(chunks).len() && #[trigger] ends_with(
                flatten(chunks).subrange(0, e), p, p.len() as int);
            assert(false);
        } else {
            let i = chunks.len() - 1;
            assert(chunks.take(i + 1) =~= chunks);
            assert(occurs_in(flatten(chunks.take(i + 1)), p));
        }
    }
}

/// Two ways of cutting the same output into reads give the same verdict.
pub proof fn lemma_same_output_same_verdict(p: Seq<u8>, a: Seq<Seq<u8>>, b: Seq<Seq<u8>>)
    requires
        p.len() > 0,
        flatten(a) == flatten(b),
    ensures
        (exists|i: int| 0 <= i < a.len() && #[trigger] occurs_in(flatten(a.take(i + 1)), p))
            <==> (exists|j: int| 0 <= j < b.len() && #[trigger] occurs_in(flatten(b.take(j + 1)), p)),
{
    lemma_any_chunking(p, a);
    lemma_any_chunking(p, b);
}

/// The longest-proper-prefix-which-is-also-suffix table of `pattern`: entry `i`
/// is the length of the longest border of the first `i + 1` bytes.
pub fn compute_lps_array(pattern: &[u8]) -> (lps: Vec<usize>)
    requires
        pattern@.len() > 0,
    ensures
        lps@.len() == pattern@.len(),
        forall|i: int| 0 <= i < lps@.len() ==> is_longest_border(pattern@, i + 1, #[trigger] lps@[i] as int),
{
    let ghost p = pattern@;
    let ptn_len = pattern.len();
    let mut lps: Vec<usize> = vec![0; ptn_len];

    // length of the previous longest prefix suffix
    let mut len: usize = 0;
    lps.set(0, 0);
    proof {
        lemma_ends_with_empty(p.subrange(0, 1), p);
        assert(is_longest_border(p, 1, 0));
    }

    // the loop calculates lps[i] for i = 1 to ptn_len-1
    let mut i: usize = 1;
    while i < ptn_len
        invariant
            p == pattern@,
            ptn_len == p.len(),
            1 <= i <= ptn_len,
            lps@.len() == ptn_len,
            len < i,
            forall|q: int| 0 <= q < i ==> is_longest_border(p, q + 1, #[trigger] lps@[q] as int),
            is_border(p, i as int, len as int),
            forall|k: int|
                len < k < i && #[trigger] ends_with(p.subrange(0, i as int), p, k) ==> i < ptn_len
                    && p[k] != p[i as int],
        decreases ptn_len - i, len,
    {
        let ghost t = p.subrange(0, i as int);
        let ghost c = p[i as int];
        proof {
            assert(t.push(c) =~= p.subrange(0, i + 1));
        }
        if pattern[i] == pattern[len] {
            proof {
                lemma_ends_with_push(t, p, c, len as int);
                assert forall|m: int| len + 1 < m < i + 1 implies !#[trigger] is_border(p, i + 1, m) by {
                    if is_border(p, i + 1, m) {
                        lemma_push_bound(t, p, len as int, c, i as int, m);
                    }
                }
            }
            len = len + 1;
            lps.set(i, len);
            i = i + 1;
            proof {
                assert forall|k: int|
                    len < k < i && #[trigger] ends_with(p.subrange(0, i as int), p, k) implies i < ptn_len
                        && p[k] != p[i as int] by {
                    assert(is_border(p, i as int, k));
                }
            }
        } else if len != 0 {
            let ghost old_len = len as int;
            proof {
                assert(is_longest_border(p, old_len, lps@[old_len - 1] as int));
            }
            len = lps[len - 1];
            proof {
                lemma_border_match(t, p, old_len, len as int);
                assert forall|k: int|
                    len < k < i && #[trigger] ends_with(p.subrange(0, i as int), p, k) implies i < ptn_len
                        && p[k] != p[i as int] by {
                    if k < old_len {
                        lemma_two_matches_border(t, p, old_len, k);
                        assert(is_border(p, old_len, k));
                    }
                }
            }
        } else {
            proof {
                lemma_ends_with_empty(p.subrange(0, i + 1), p);
                assert forall|m: int| 0 < m < i + 1 implies !#[trigger] is_border(p, i + 1, m) by {
                    if is_border(p, i + 1, m) {
                        lemma_push_bound(t, p, 0, c, i as int, m);
                    }
                }
            }
            lps.set(i, 0);
            i = i + 1;
            proof {
                assert forall|k: int|
                    len < k < i && #[trigger] ends_with(p.subrange(0, i as int), p, k) implies i < ptn_len
                        && p[k] != p[i as int] by {
                    assert(is_border(p, i as int, k));
                }
            }
        }
    }
    lps
}

/// What the caller of [`UntilMatcher::step`] does next.
#[derive(Debug, Clone, Copy, PartialEq, Eq, Structural)]
pub enum UntilAction {
    /// The pattern has been seen in the output: stop reading.
    Matched,
    /// The output ended without the pattern: stop reading.
    Exhausted,
    /// No match yet: read the next chunk.
    ReadMore,
}

/// The state of a search for a byte pattern in a stream of output that arrives in
/// chunks (Knuth-Morris-Pratt, carried across chunk boundaries).
pub struct UntilMatcher {
    pattern: Vec<u8>,
    lps: Vec<usize>,
    /// Position of the next pattern byte to compare.
    j: usize,
    /// The previous chunk ended right after a matching byte.
    read_more: bool,
    seen: Ghost<Seq<u8>>,
}

impl UntilMatcher {
    /// The pattern searched for.
    pub closed spec fn pattern(&self) -> Seq<u8> {
        self.pattern@
    }

    /// All bytes of the stream fed so far.
    pub closed spec fn seen(&self) -> Seq<u8> {
        self.seen@
    }

    /// The search state agrees with the bytes seen: `j` is the longest match
    /// of a pattern prefix at the end of the stream, and the pattern has not
    /// occurred yet.
    pub closed spec fn wf(&self) -> bool {
        let p = self.pattern@;
        let t = self.seen@;
        &&& p.len() > 0
        &&& self.lps@.len() == p.len()
        &&& forall|i: int| 0 <= i < p.len() ==> is_longest_border(p, i + 1, #[trigger] self.lps@[i] as int)
        &&& self.j < p.len()
        &&& ends_with(t, p, self.j as int)
        &&& forall|k: int| self.j < k < p.len() ==> !#[trigger] ends_with(t, p, k)
        &&& !occurs_in(t, p)
    }

    /// Starts a search for `pattern` before any output has been read.
    pub fn new(pattern: &[u8]) -> (m: Self)
        requires
            pattern@.len() > 0,
        ensures
            m.wf(),
            m.pattern() == pattern@,
            m.seen() == Seq::<u8>::empty(),
    {
        let lps = compute_lps_array(pattern);
        let m = UntilMatcher {
            pattern: vstd::slice::slice_to_vec(pattern),
            lps,
            j: 0,
            read_more: false,
            seen: Ghost(Seq::empty()),
        };
        proof {
            lemma_ends_with_empty(Seq::<u8>::empty(), pattern@);
        }
        m
    }

    /// Takes the next chunk of output (empty at the end of the stream) and says
    /// whether the pattern has now been seen, the stream ended without it, or
    /// more output is needed.
    pub fn step(&mut self, chunk: &[u8]) -> (action: UntilAction)
        requires
            old(self).wf(),
        ensures
            chunk@.len() == 0 ==> action == UntilAction::Exhausted && *final(self) == *old(self),
            chunk@.len() > 0 ==> (action == UntilAction::Matched <==> occurs_in(
                old(self).seen() + chunk@,
                old(self).pattern(),
            )),
            chunk@.len() > 0 ==> action != UntilAction::Exhausted,
            action == UntilAction::ReadMore ==> final(self).wf() && final(self).pattern() == old(
                self,
            ).pattern() && final(self).seen() == old(self).seen() + chunk@,
    {
        let n = chunk.len();
        if n == 0 {
            return UntilAction::Exhausted;
        }
        let ghost p = self.pattern@;
        let ghost seen = self.seen@;
        let ptn_len = self.pattern.len();
        let mut j = self.j;
        let mut read_more = self.read_more;

        let mut i: usize = 0;  // position of the character in chunk
        if read_more && self.pattern[j] != chunk[i] {
            if j != 0 {
                let ghost old_j = j as int;
                proof {
                    assert(is_longest_border(p, old_j, self.lps@[old_j - 1] as int));
                }
                j = self.lps[j - 1];
                proof {
                    lemma_border_match(seen, p, old_j, j as int);
                    assert forall|k: int| j < k < ptn_len && #[trigger] ends_with(seen, p, k) implies p[k]
                        != chunk@[0] by {
                        if k < old_j {
                            lemma_two_matches_border(seen, p, old_j, k);
                            assert(is_border(p, old_j, k));
                        }
                    }
                }
            } else {
                proof {
                    let c = chunk@[0];
                    lemma_ends_with_empty(seen.push(c), p);
                    assert forall|m: int| 0 < m < ptn_len implies !#[trigger] ends_with(seen.push(c), p, m) by {
                        if ends_with(seen.push(c), p, m) {
                            lemma_push_bound(seen, p, 0, c, ptn_len as int, m);
                        }
                    }
                    lemma_occurs_push(seen, p, c);
                    if ends_with(seen.push(c), p, ptn_len as int) {
                        lemma_ends_with_push(seen, p, c, ptn_len - 1);
                    }
                    assert(seen + chunk@.subrange(0, 1) =~= seen.push(c));
                }
                i += 1;
            }
        }
        read_more = false;
        proof {
            assert(seen + chunk@.subrange(0, 0) =~= seen);
            assert(chunk@.subrange(0, n as int) =~= chunk@);
        }

        while i < n
            invariant
                p == self.pattern@,
                seen == self.seen@,
                self.wf(),
                ptn_len == p.len(),
                n == chunk@.len(),
                i <= n,
                j < ptn_len,
                ends_with(seen + chunk@.subrange(0, i as int), p, j as int),
                forall|k: int|
                    j < k < ptn_len && #[trigger] ends_with(seen + chunk@.subrange(0, i as int), p, k)
                        ==> i < n && p[k] != chunk@[i as int],
                !occurs_in(seen + chunk@.subrange(0, i as int), p),
                read_more ==> i == n,
                chunk@.subrange(0, n as int) == chunk@,
            ensures
                ends_with(seen + chunk@, p, j as int),
                forall|k: int| j < k < ptn_len ==> !#[trigger] ends_with(seen + chunk@, p, k),
                !occurs_in(seen + chunk@, p),
                j < ptn_len,
            decreases n - i, j,
        {
            let ghost t = seen + chunk@.subrange(0, i as int);
            if self.pattern[j] == chunk[i] {
                proof {
                    let c = chunk@[i as int];
                    assert(seen + chunk@.subrange(0, i + 1) =~= t.push(c));
                    lemma_ends_with_push(t, p, c, j as int);
                    assert forall|m: int| j + 1 < m <= ptn_len implies !#[trigger] ends_with(t.push(c), p, m) by {
                        if ends_with(t.push(c), p, m) {
                            if m < ptn_len || m - 1 < ptn_len {
                                lemma_push_bound(t, p, j as int, c, ptn_len as int, m);
                            }
                        }
                    }
                    lemma_occurs_push(t, p, c);
                    if j + 1 == ptn_len {
                        lemma_full_match_occurs(t.push(c), p);
                        lemma_occurs_extend(t.push(c), chunk@.subrange(i + 1, n as int), p);
                        assert(t.push(c) + chunk@.subrange(i + 1, n as int) =~= seen + chunk@);
                    }
                }
                i += 1;
                j += 1;
            }

            if j == ptn_len {
                return UntilAction::Matched;
            }

            if i == n {
                read_more = true;
                break;
            }

            if self.pattern[j] == chunk[i] {
                continue;
            }

            let ghost t = seen + chunk@.subrange(0, i as int);
            if j != 0 {
                let ghost old_j = j as int;
                proof {
                    assert(is_longest_border(p, old_j, self.lps@[old_j - 1] as int));
                }
                j = self.lps[j - 1];
                proof {
                    lemma_border_match(t, p, old_j, j as int);
                    assert forall|k: int| j < k < ptn_len && #[trigger] ends_with(t, p, k) implies i < n
                        && p[k] != chunk@[i as int] by {
                        if k < old_j {
                            lemma_two_matches_border(t, p, old_j, k);
                            assert(is_border(p, old_j, k));
                        }
                    }
                }
            } else {
                proof {
                    let c = chunk@[i as int];
                    assert(seen + chunk@.subrange(0, i + 1) =~= t.push(c));
                    lemma_ends_with_empty(t.push(c), p);
                    assert forall|m: int| 0 < m < ptn_len implies !#[trigger] ends_with(t.push(c), p, m) by {
                        if ends_with(t.push(c), p, m) {
                            lemma_push_bound(t, p, 0, c, ptn_len as int, m);
                        }
                    }
                    lemma_occurs_push(t, p, c);
                    if ends_with(t.push(c), p, ptn_len as int) {
                        lemma_ends_with_push(t, p, c, ptn_len - 1);
                    }
                }
                i += 1;
            }
        }
        self.j = j;
        self.read_more = read_more;
        self.seen = Ghost(seen + chunk@);
        UntilAction::ReadMore
    }
}

/// Microseconds in one second.
pub const MICROSEC_PER_SEC: i64 = 1_000_000;

/// The counters of a finished process's resource usage that timing reads: user
/// and system time as whole seconds plus microseconds, and the peak resident set
/// size in kilobytes.
#[derive(Debug, Clone, Copy, PartialEq, Eq, Structural)]
pub struct ResourceUsage {
    pub user_sec: i64,
    pub user_usec: i64,
    pub system_sec: i64,
    pub system_usec: i64,
    pub max_rss_kb: i64,
}

/// A time given as whole seconds plus microseconds, in microseconds, computed in
/// 64-bit arithmetic without overflow.
pub open spec fn fits_micros(sec: i64, usec: i64) -> bool {
    &&& i64::MIN <= sec * 1_000_000 <= i64::MAX
    &&& i64::MIN <= sec * 1_000_000 + usec <= i64::MAX
}

/// Extract timing and memory info from rusage: user time, system time and peak
/// memory in bytes.
pub fn extract_rusage_stats(rusage: &ResourceUsage) -> (r: (Second, Second, u64))
    requires
        fits_micros(rusage.user_sec, rusage.user_usec),
        fits_micros(rusage.system_sec, rusage.system_usec),
        0 <= rusage.max_rss_kb,
        rusage.max_rss_kb * 1024 <= u64::MAX,
    ensures
        !r.0.is_nan() && !r.0.is_infinite(),
        r.0.negative() == (rusage.user_sec * 1_000_000 + rusage.user_usec < 0),
        r.0.units() == micros_seconds_units(rusage.user_sec * 1_000_000 + rusage.user_usec),
        !r.1.is_nan() && !r.1.is_infinite(),
        r.1.negative() == (rusage.system_sec * 1_000_000 + rusage.system_usec < 0),
        r.1.units() == micros_seconds_units(rusage.system_sec * 1_000_000 + rusage.system_usec),
        r.2 == rusage.max_rss_kb * 1024,
{
    let user_usec = rusage.user_sec * MICROSEC_PER_SEC + rusage.user_usec;
    let time_user = micros_to_seconds(user_usec);

    let system_usec = rusage.system_sec * MICROSEC_PER_SEC + rusage.system_usec;
    let time_system = micros_to_seconds(system_usec);

    // Linux returns ru_maxrss in kilobytes
    let memory_usage_byte = (rusage.max_rss_kb as u64) * 1024;

    (time_user, time_system, memory_usage_byte)
}

} // verus!

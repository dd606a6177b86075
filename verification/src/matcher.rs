//! Incremental recognizer for a fixed byte sequence inside a stream.
//!
//! `SearchBytes` is fed one byte at a time and reports the end of the
//! first occurrence of its pattern that its restart rule can see.  On a
//! mismatch in the middle of the pattern the matched prefix is dropped
//! and the current byte is *not* re-tested against the start of the
//! pattern; the laws at the end of this file say exactly when that rule
//! still finds the first occurrence.  Once a match is found the matcher
//! latches: it keeps returning the same offset until it is reset.

use vstd::prelude::*;

verus! {

/// Mathematical state of a matcher: how many pattern bytes are matched
/// contiguously, and how many stream bytes were consumed since the last
/// reset.
pub struct MatchState {
    pub index: int,
    pub count: int,
}

/// The state a matcher has right after construction or reset.
pub open spec fn init_state() -> MatchState {
    MatchState { index: 0, count: 0 }
}

/// One step of the matcher on byte `b`: a latched matcher ignores the
/// byte; otherwise the matched prefix grows on a pattern byte and falls
/// back to zero on any other byte, without re-testing `b`.
pub open spec fn sb_step(p: Seq<u8>, st: MatchState, b: u8) -> MatchState {
    if st.index == p.len() {
        st
    } else if 0 <= st.index < p.len() && p[st.index] == b {
        MatchState { index: st.index + 1, count: st.count + 1 }
    } else {
        MatchState { index: 0, count: st.count + 1 }
    }
}

/// The matcher state after feeding every byte of `s`, in order.
pub open spec fn sb_run(p: Seq<u8>, st: MatchState, s: Seq<u8>) -> MatchState
    decreases s.len(),
{
    if s.len() == 0 {
        st
    } else {
        sb_run(p, sb_step(p, st, s[0]), s.skip(1))
    }
}

/// The reported match: the 0-based offset, counted from the last reset,
/// at which the found occurrence of the pattern starts.
pub open spec fn sb_found(p: Seq<u8>, st: MatchState) -> Option<int> {
    if st.index == p.len() {
        Some(st.count - p.len())
    } else {
        None
    }
}

/// The pattern occurs in `s` starting at index `j`.
pub open spec fn occurs_at(p: Seq<u8>, s: Seq<u8>, j: int) -> bool {
    0 <= j && j + p.len() <= s.len() && s.subrange(j, j + p.len() as int) == p
}

/// All bytes of the pattern are the same.  This is the class of
/// patterns for which the restart rule provably finds the first
/// occurrence on every stream.
pub open spec fn uniform(p: Seq<u8>) -> bool {
    forall|i: int| 0 <= i < p.len() ==> #[trigger] p[i] == p[0]
}

/// Incremental matcher for a fixed non-empty byte pattern.
pub struct SearchBytes {
    bytes: Vec<u8>,
    length: usize,
    index: usize,
    count: usize,
}

impl SearchBytes {
    /// The pattern this matcher was built over.
    pub closed spec fn pattern(&self) -> Seq<u8> {
        self.bytes@
    }

    /// The abstract state of the matcher.
    pub closed spec fn st(&self) -> MatchState {
        MatchState { index: self.index as int, count: self.count as int }
    }

    /// Internal consistency: the cached length is the pattern's, the
    /// pattern is non-empty, and the counters are in range.
    pub closed spec fn wf(&self) -> bool {
        &&& self.length == self.bytes@.len()
        &&& self.length >= 1
        &&& self.index <= self.length
        &&& self.index <= self.count
    }

    /// A full match has been found and is held until `reset`.
    pub open spec fn latched(&self) -> bool {
        self.st().index == self.pattern().len()
    }

    /// Builds a matcher over `pattern`; a zero-length pattern is a
    /// configuration error, reported at construction time.
    pub fn new(pattern: Vec<u8>) -> (r: Result<Self, String>)
        ensures
            r is Err <==> pattern@.len() == 0,
            r matches Ok(m) ==> m.wf() && m.pattern() == pattern@ && m.st() == init_state(),
    {
        let len = pattern.len();
        if len == 0 {
            Err("The length of pattern is 0".to_string())
        } else {
            Ok(Self { bytes: pattern, length: len, index: 0, count: 0 })
        }
    }

    /// Unlatches the matcher and zeroes both counters, handing back the
    /// number of bytes seen since the previous reset; callers use that
    /// value to compute boundaries of the segment just scanned.
    pub fn reset(&mut self) -> (prev: usize)
        requires
            old(self).wf(),
        ensures
            final(self).wf(),
            final(self).pattern() == old(self).pattern(),
            final(self).st() == init_state(),
            prev == old(self).st().count,
    {
        let prev = self.count;
        self.index = 0;
        self.count = 0;
        prev
    }

    /// The latched match offset, if a full match has been found.
    pub fn result(&self) -> (r: Option<usize>)
        requires
            self.wf(),
        ensures
            r is Some <==> self.latched(),
            r matches Some(i) ==> Some(i as int) == sb_found(self.pattern(), self.st()),
    {
        if self.index == self.length {
            Some(self.count - self.length)
        } else {
            None
        }
    }

    /// One raw step on `byte`; only valid while no match is latched.
    pub fn _search(&mut self, byte: &u8) -> (r: Option<usize>)
        requires
            old(self).wf(),
            !old(self).latched(),
            old(self).st().count < usize::MAX,
        ensures
            final(self).wf(),
            final(self).pattern() == old(self).pattern(),
            final(self).st() == sb_step(old(self).pattern(), old(self).st(), *byte),
            r is Some <==> final(self).latched(),
            r matches Some(i) ==> Some(i as int) == sb_found(final(self).pattern(), final(self).st()),
    {
        if *byte == self.bytes[self.index] {
            self.index = self.index + 1;
        } else if self.index != 0 {
            self.index = 0;
        }
        self.count = self.count + 1;
        self.result()
    }

    /// Feeds a whole chunk, scanning left to right and stopping at
    /// the first match; the result, and the state left behind, are
    /// exactly those of feeding the chunk one byte at a time.
    pub fn search_many(&mut self, bytes: &[u8]) -> (r: Option<usize>)
        requires
            old(self).wf(),
            old(self).st().count + bytes@.len() <= usize::MAX,
        ensures
            final(self).wf(),
            final(self).pattern() == old(self).pattern(),
            final(self).st() == sb_run(old(self).pattern(), old(self).st(), bytes@),
            r is Some <==> final(self).latched(),
            r matches Some(i) ==> Some(i as int) == sb_found(final(self).pattern(), final(self).st()),
    {
        let mut i: usize = 0;
        while i < bytes.len()
            invariant
                self.wf(),
                self.pattern() == old(self).pattern(),
                0 <= i <= bytes.len(),
                old(self).st().count + bytes@.len() <= usize::MAX,
                self.st() == sb_run(old(self).pattern(), old(self).st(), bytes@.take(i as int)),
                self.st().count <= old(self).st().count + i,
            decreases bytes.len() - i,
        {
            let ghost p = old(self).pattern();
            let ghost st0 = old(self).st();
            proof {
                lemma_sb_run_push(p, st0, bytes@.take(i as int), bytes@[i as int]);
                assert(bytes@.take(i as int).push(bytes@[i as int]) =~= bytes@.take(i as int + 1));
            }
            let r = self.search(&bytes[i]);
            i = i + 1;
            if r.is_some() {
                proof {
                    lemma_sb_run_app(p, st0, bytes@.take(i as int), bytes@.skip(i as int));
                    assert(bytes@.take(i as int) + bytes@.skip(i as int) =~= bytes@);
                    lemma_latched_stable(p, self.st(), bytes@.skip(i as int));
                }
                return r;
            }
        }
        proof {
            assert(bytes@.take(bytes@.len() as int) =~= bytes@);
        }
        self.result()
    }

    /// Feeds one byte: a latched matcher returns its held offset
    /// unchanged, otherwise the byte is consumed as in `_search`.
    pub fn search(&mut self, byte: &u8) -> (r: Option<usize>)
        requires
            old(self).wf(),
            old(self).latched() || old(self).st().count < usize::MAX,
        ensures
            final(self).wf(),
            final(self).pattern() == old(self).pattern(),
            final(self).st() == sb_step(old(self).pattern(), old(self).st(), *byte),
            r is Some <==> final(self).latched(),
            r matches Some(i) ==> Some(i as int) == sb_found(final(self).pattern(), final(self).st()),
    {
        match self.result() {
            None => {}
            Some(i) => {
                return Some(i);
            }
        }
        self._search(byte)
    }
}

/// Feeding a stream in two pieces leaves the matcher exactly where
/// feeding it in one piece does: the result of a scan is independent of
/// how the stream is chunked, so byte-at-a-time and whole-buffer feeds
/// agree.
pub proof fn lemma_sb_run_app(p: Seq<u8>, st: MatchState, s1: Seq<u8>, s2: Seq<u8>)
    ensures
        sb_run(p, st, s1 + s2) == sb_run(p, sb_run(p, st, s1), s2),
    decreases s1.len(),
{
    if s1.len() == 0 {
        assert(s1 + s2 =~= s2);
    } else {
        assert((s1 + s2).skip(1) =~= s1.skip(1) + s2);
        lemma_sb_run_app(p, sb_step(p, st, s1[0]), s1.skip(1), s2);
    }
}

/// Feeding one more byte after a stream is one more step.
pub proof fn lemma_sb_run_push(p: Seq<u8>, st: MatchState, s: Seq<u8>, b: u8)
    ensures
        sb_run(p, st, s.push(b)) == sb_step(p, sb_run(p, st, s), b),
{
    lemma_sb_run_app(p, st, s, seq![b]);
    assert(s + seq![b] =~= s.push(b));
    let st1 = sb_run(p, st, s);
    assert(seq![b].skip(1) =~= Seq::<u8>::empty());
    assert(sb_run(p, st1, seq![b]) == sb_run(p, sb_step(p, st1, b), seq![b].skip(1)));
}

/// Once latched, a matcher ignores every further byte: the held state,
/// and with it the reported offset, never changes until a reset.
pub proof fn lemma_latched_stable(p: Seq<u8>, st: MatchState, s: Seq<u8>)
    requires
        st.index == p.len(),
    ensures
        sb_run(p, st, s) == st,
    decreases s.len(),
{
    if s.len() > 0 {
        lemma_latched_stable(p, sb_step(p, st, s[0]), s.skip(1));
    }
}

/// Once a matcher has reported a match, feeding any further bytes
/// returns the identical offset, until a reset.
pub proof fn lemma_found_stable(p: Seq<u8>, st: MatchState, s: Seq<u8>)
    requires
        sb_found(p, st) is Some,
    ensures
        sb_found(p, sb_run(p, st, s)) == sb_found(p, st),
{
    lemma_latched_stable(p, st, s);
}

/// An occurrence wholly inside a stream is untouched by appending a
/// byte to the stream.
proof fn lemma_occurs_push(p: Seq<u8>, s: Seq<u8>, b: u8, j: int)
    requires
        0 <= j,
        j + p.len() <= s.len(),
    ensures
        occurs_at(p, s, j) <==> occurs_at(p, s.push(b), j),
{
    assert(s.push(b).subrange(j, j + p.len() as int) =~= s.subrange(j, j + p.len() as int));
}

/// What a run of the matcher from a fresh state guarantees, for every
/// pattern: while unlatched, the matched prefix is a live suffix of the
/// stream; once latched, the reported offset is a genuine occurrence.
pub proof fn lemma_run_sound(p: Seq<u8>, s: Seq<u8>)
    requires
        p.len() >= 1,
    ensures
        ({
            let st = sb_run(p, init_state(), s);
            &&& 0 <= st.index <= p.len()
            &&& st.index < p.len() ==> st.count == s.len() && st.index <= s.len()
                && s.subrange(s.len() - st.index, s.len() as int) == p.take(st.index)
            &&& st.index == p.len() ==> p.len() <= st.count <= s.len()
                && occurs_at(p, s, st.count - p.len())
        }),
    decreases s.len(),
{
    if s.len() == 0 {
        assert(s.subrange(0, 0) =~= p.take(0));
    } else {
        let s0 = s.drop_last();
        let b = s.last();
        let n = p.len() as int;
        lemma_run_sound(p, s0);
        assert(s0.push(b) =~= s);
        lemma_sb_run_push(p, init_state(), s0, b);
        let st0 = sb_run(p, init_state(), s0);
        let st = sb_step(p, st0, b);
        if st0.index == n {
            lemma_occurs_push(p, s0, b, st0.count - n);
        } else {
            assert(s0.subrange(s0.len() - st0.index, s0.len() as int) == p.take(st0.index));
            if p[st0.index] == b {
                let m = st0.index + 1;
                assert forall|k: int| 0 <= k < m implies s.subrange(s.len() - m, s.len() as int)[k]
                    == p.take(m)[k] by {
                    if k < m - 1 {
                        assert(s0.subrange(s0.len() - st0.index, s0.len() as int)[k] == p.take(
                            st0.index,
                        )[k]);
                        assert(s[s0.len() - st0.index + k] == s0[s0.len() - st0.index + k]);
                    } else {
                        assert(s[s.len() - 1] == b);
                    }
                }
                assert(s.subrange(s.len() - m, s.len() as int) =~= p.take(m));
                if st.index == n {
                    assert(p.take(n) =~= p);
                    assert(occurs_at(p, s, st.count - n));
                }
            } else {
                assert(s.subrange(s.len() - 0, s.len() as int) =~= p.take(0));
            }
        }
    }
}

/// For a uniform pattern an occurrence is exactly a window of pattern
/// bytes.
proof fn lemma_occurs_uniform(p: Seq<u8>, s: Seq<u8>, j: int)
    requires
        p.len() >= 1,
        uniform(p),
    ensures
        occurs_at(p, s, j) <==> (0 <= j && j + p.len() <= s.len() && forall|k: int|
            j <= k < j + p.len() ==> s[k] == p[0]),
{
    let n = p.len() as int;
    if 0 <= j && j + n <= s.len() {
        if occurs_at(p, s, j) {
            assert forall|k: int| j <= k < j + n implies s[k] == p[0] by {
                assert(s.subrange(j, j + n)[k - j] == p[k - j]);
            }
        }
        if forall|k: int| j <= k < j + n ==> s[k] == p[0] {
            assert forall|k: int| 0 <= k < n implies s.subrange(j, j + n)[k] == p[k] by {
                assert(s[j + k] == p[0]);
            }
            assert(s.subrange(j, j + n) =~= p);
        }
    }
}

/// Running invariant of the matcher over a uniform pattern: while
/// unlatched, the matched prefix is exactly the stream's trailing run
/// of pattern bytes and no occurrence has been passed over; once
/// latched, the held offset is the first occurrence.
proof fn lemma_run_uniform_inv(p: Seq<u8>, s: Seq<u8>)
    requires
        p.len() >= 1,
        uniform(p),
    ensures
        ({
            let st = sb_run(p, init_state(), s);
            let n = p.len() as int;
            &&& 0 <= st.index <= n
            &&& st.index < n ==> {
                &&& st.count == s.len()
                &&& st.index <= s.len()
                &&& (forall|k: int| s.len() - st.index <= k < s.len() ==> s[k] == p[0])
                &&& (st.index < s.len() ==> s[s.len() - st.index - 1] != p[0])
                &&& (forall|j: int| !occurs_at(p, s, j))
            }
            &&& st.index == n ==> {
                &&& n <= st.count <= s.len()
                &&& occurs_at(p, s, st.count - n)
                &&& (forall|j: int| 0 <= j < st.count - n ==> !occurs_at(p, s, j))
            }
        }),
    decreases s.len(),
{
    let n = p.len() as int;
    if s.len() == 0 {
        assert forall|j: int| !occurs_at(p, s, j) by {}
    } else {
        let s0 = s.drop_last();
        let b = s.last();
        lemma_run_uniform_inv(p, s0);
        assert(s0.push(b) =~= s);
        lemma_sb_run_push(p, init_state(), s0, b);
        let st0 = sb_run(p, init_state(), s0);
        let st = sb_step(p, st0, b);
        if st0.index == n {
            lemma_occurs_push(p, s0, b, st0.count - n);
            assert forall|j: int| 0 <= j < st.count - n implies !occurs_at(p, s, j) by {
                lemma_occurs_push(p, s0, b, j);
            }
        } else {
            if p[st0.index] == b {
                let m = st0.index + 1;
                assert(b == p[0]);
                assert forall|k: int| s.len() - m <= k < s.len() implies s[k] == p[0] by {
                    if k < s.len() - 1 {
                        assert(s[k] == s0[k]);
                        assert(s0[k] == p[0]);
                    } else {
                        assert(s[k] == b);
                    }
                }
                if m < n {
                    assert forall|j: int| !occurs_at(p, s, j) by {
                        if occurs_at(p, s, j) {
                            lemma_occurs_uniform(p, s, j);
                            if j + n <= s0.len() {
                                lemma_occurs_push(p, s0, b, j);
                                assert(occurs_at(p, s0, j));
                            } else {
                                assert(j + n == s.len());
                                if m == s.len() {
                                    assert(j < 0);
                                } else {
                                    let q = s.len() - m - 1;
                                    assert(s[q] != p[0]) by {
                                        assert(s[q] == s0[q]);
                                        assert(s0[s0.len() - st0.index - 1] != p[0]);
                                    }
                                    assert(j <= q < j + n);
                                    assert(s[q] == p[0]);
                                }
                            }
                            assert(false);
                        }
                    }
                } else {
                    assert(occurs_at(p, s, s.len() - n)) by {
                        lemma_occurs_uniform(p, s, s.len() - n);
                    }
                    assert forall|j: int| 0 <= j < st.count - n implies !occurs_at(p, s, j) by {
                        lemma_occurs_push(p, s0, b, j);
                    }
                }
            } else {
                assert(b != p[0]);
                assert forall|j: int| !occurs_at(p, s, j) by {
                    if occurs_at(p, s, j) {
                        lemma_occurs_uniform(p, s, j);
                        if j + n <= s0.len() {
                            lemma_occurs_push(p, s0, b, j);
                            assert(occurs_at(p, s0, j));
                        } else {
                            assert(j <= s.len() - 1 < j + n);
                            assert(s[s.len() - 1] == p[0]);
                            assert(s[s.len() - 1] == b);
                        }
                        assert(false);
                    }
                }
            }
        }
    }
}

/// Feeding any stream through a fresh matcher over a non-empty pattern
/// whose bytes are all equal reports exactly the 0-based index of the
/// first occurrence of the pattern in the stream, and reports nothing
/// exactly when the pattern does not occur.  Together with
/// `lemma_sb_run_app` this holds equally for byte-at-a-time and
/// whole-chunk feeding.  The restriction to uniform patterns is
/// essential: the restart rule drops the current byte on a mismatch,
/// so over a pattern with two distinct bytes a first occurrence can be
/// passed over.
pub proof fn lemma_run_first_occurrence(p: Seq<u8>, s: Seq<u8>)
    requires
        p.len() >= 1,
        uniform(p),
    ensures
        ({
            let r = sb_found(p, sb_run(p, init_state(), s));
            &&& r matches Some(j) ==> occurs_at(p, s, j) && (forall|k: int|
                0 <= k < j ==> !occurs_at(p, s, k))
            &&& r is None ==> forall|j: int| !occurs_at(p, s, j)
        }),
{
    lemma_run_uniform_inv(p, s);
}

} // verus!

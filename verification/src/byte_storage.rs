//! Byte-level path values and their derived views.
//!
//! A [`FilePath`] holds the raw bytes of one filesystem path, exactly as the
//! enumerator produced them (they need not be UTF-8). All parsing is
//! byte-level: a segment is a non-empty run of bytes between separators, the
//! extension is the suffix of the final segment after its rightmost dot.

use vstd::prelude::*;

verus! {

/// The path separator byte.
pub const SEPARATOR: u8 = 47;

/// The extension marker byte.
pub const DOT: u8 = 46;

pub open spec fn is_sep(b: u8) -> bool {
    b == SEPARATOR
}

/// Length of the maximal separator-free prefix of `p`.
pub open spec fn run_len(p: Seq<u8>) -> nat
    decreases p.len(),
{
    if p.len() == 0 || is_sep(p[0]) {
        0
    } else {
        1 + run_len(p.skip(1))
    }
}

/// The segments of `p`: the non-empty separator-free runs, in order.
pub open spec fn segments_of(p: Seq<u8>) -> Seq<Seq<u8>>
    decreases p.len(),
    via segments_of_decreases
{
    if p.len() == 0 {
        Seq::empty()
    } else if is_sep(p[0]) {
        segments_of(p.skip(1))
    } else {
        seq![p.take(run_len(p) as int)] + segments_of(p.skip(run_len(p) as int))
    }
}

#[via_fn]
proof fn segments_of_decreases(p: Seq<u8>) {
    if p.len() > 0 && !is_sep(p[0]) {
        assert(run_len(p) == 1 + run_len(p.skip(1)));
        lemma_run_len_le(p);
    }
}

/// The separator-free prefix is no longer than the sequence.
proof fn lemma_run_len_le(p: Seq<u8>)
    ensures
        run_len(p) <= p.len(),
    decreases p.len(),
{
    if p.len() > 0 && !is_sep(p[0]) {
        lemma_run_len_le(p.skip(1));
    }
}

/// The last segment of `p`, or empty if `p` has no segment.
pub open spec fn name_of(p: Seq<u8>) -> Seq<u8> {
    if segments_of(p).len() == 0 {
        Seq::empty()
    } else {
        segments_of(p).last()
    }
}

/// Index of the rightmost dot in `s`, or `-1` if `s` has none.
pub open spec fn last_dot(s: Seq<u8>) -> int
    decreases s.len(),
{
    if s.len() == 0 {
        -1
    } else if s[s.len() - 1] == DOT {
        s.len() - 1
    } else {
        last_dot(s.drop_last())
    }
}

/// The extension of a single segment: what follows its rightmost dot.
pub open spec fn ext_of_segment(s: Seq<u8>) -> Seq<u8> {
    if last_dot(s) == -1 {
        Seq::empty()
    } else {
        s.skip(last_dot(s) + 1)
    }
}

/// The extension of a path: the extension of its final segment.
pub open spec fn ext_of(p: Seq<u8>) -> Seq<u8> {
    if segments_of(p).len() == 0 {
        Seq::empty()
    } else {
        ext_of_segment(segments_of(p).last())
    }
}

/// The segments joined by single separators, with no separator at either end.
pub open spec fn joined(segs: Seq<Seq<u8>>) -> Seq<u8>
    decreases segs.len(),
{
    if segs.len() == 0 {
        Seq::empty()
    } else if segs.len() == 1 {
        segs[0]
    } else {
        segs[0] + seq![SEPARATOR] + joined(segs.skip(1))
    }
}

/// The parent of `p`: `p` without its last segment, keeping a leading
/// separator if `p` had one. Empty when `p` has at most one segment and no
/// leading separator.
pub open spec fn parent_of(p: Seq<u8>) -> Seq<u8> {
    let segs = segments_of(p);
    let lead: Seq<u8> = if p.len() > 0 && is_sep(p[0]) {
        seq![SEPARATOR]
    } else {
        Seq::empty()
    };
    if segs.len() <= 1 {
        lead
    } else {
        lead + joined(segs.drop_last())
    }
}

/// One filesystem path, held as its raw bytes.
pub struct FilePath {
    data: Vec<u8>,
}

impl View for FilePath {
    type V = Seq<u8>;

    closed spec fn view(&self) -> Seq<u8> {
        self.data@
    }
}

impl PartialEq for FilePath {
    /// Equality is byte equality.
    fn eq(&self, other: &FilePath) -> (r: bool) {
        let r = self.data == other.data;
        proof {
            if self.data@.len() == other.data@.len() && (forall|i: int|
                0 <= i < self.data@.len() ==> self.data@[i] == other.data@[i]) {
                assert(self.data@ =~= other.data@);
            }
        }
        r
    }
}

impl vstd::std_specs::cmp::PartialEqSpecImpl for FilePath {
    open spec fn obeys_eq_spec() -> bool {
        true
    }

    open spec fn eq_spec(&self, other: &FilePath) -> bool {
        self@ == other@
    }
}

impl FilePath {
    pub fn new(data: Vec<u8>) -> (r: Self)
        ensures
            r@ == data@,
    {
        FilePath { data }
    }

    /// The full path bytes.
    pub fn path(&self) -> (r: &Vec<u8>)
        ensures
            r@ == self@,
    {
        &self.data
    }

    /// An owned copy of this path.
    pub fn duplicate(&self) -> (r: Self)
        ensures
            r@ == self@,
    {
        let copy = self.data.clone();
        proof {
            assert(copy@ =~= self.data@);
        }
        FilePath { data: copy }
    }

    /// An iterator over the path's segments.
    pub fn iter(&self) -> (r: FilePathIterator)
        ensures
            r.wf(),
            r.source() == self@,
            r.remaining() == segments_of(self@),
    {
        let r = FilePathIterator { index: 0, inner: &self.data };
        proof {
            assert(self.data@.skip(0) =~= self.data@);
        }
        r
    }

    /// All segments, in order.
    pub fn segments(&self) -> (r: Vec<Vec<u8>>)
        ensures
            r@.len() == segments_of(self@).len(),
            forall|j: int| 0 <= j < r@.len() ==> #[trigger] r@[j]@ == segments_of(self@)[j],
    {
        let mut it = self.iter();
        let mut r: Vec<Vec<u8>> = Vec::new();
        loop
            invariant
                it.wf(),
                it.source() == self@,
                r@.len() + it.remaining().len() == segments_of(self@).len(),
                forall|j: int| 0 <= j < r@.len() ==> #[trigger] r@[j]@ == segments_of(self@)[j],
                it.remaining() == segments_of(self@).skip(r@.len() as int),
            ensures
                it.remaining().len() == 0,
                r@.len() == segments_of(self@).len(),
                forall|j: int| 0 <= j < r@.len() ==> #[trigger] r@[j]@ == segments_of(self@)[j],
            decreases it.remaining().len(),
        {
            let ghost pre = it.remaining();
            match it.next() {
                Some(s) => {
                    proof {
                        assert(pre[0] == segments_of(self@)[r@.len() as int]);
                        assert(pre.skip(1) =~= segments_of(self@).skip(r@.len() as int + 1));
                    }
                    r.push(s);
                },
                None => {
                    break ;
                },
            }
        }
        r
    }

    /// The last segment, or empty if the path has none.
    pub fn name(&self) -> (r: Vec<u8>)
        ensures
            r@ == name_of(self@),
    {
        let mut segs = self.segments();
        match segs.pop() {
            Some(s) => s,
            None => Vec::new(),
        }
    }

    /// The bytes after the rightmost dot of the final segment; empty if that
    /// segment has no dot, or the path has no segment.
    pub fn file_ext(&self) -> (r: Vec<u8>)
        ensures
            r@ == ext_of(self@),
    {
        let mut segs = self.segments();
        let ghost segseq = segments_of(self@);
        match segs.pop() {
            None => Vec::new(),
            Some(mut s) => {
                let ghost s0 = s@;
                proof {
                    assert(s0 == segseq[segseq.len() - 1]);
                    assert(s0 == segseq.last());
                }
                let mut i = s.len();
                while i > 0
                    invariant
                        i <= s@.len(),
                        s@ == s0,
                        forall|j: int| i <= j < s@.len() ==> s@[j] != DOT,
                        segments_of(self@).len() > 0,
                        s0 == segments_of(self@).last(),
                    decreases i,
                {
                    if s[i - 1] == DOT {
                        proof {
                            lemma_last_dot_at(s0, i - 1);
                        }
                        let ext = s.split_off(i);
                        proof {
                            assert(ext@ =~= s0.skip(i as int));
                        }
                        return ext;
                    }
                    i = i - 1;
                }
                proof {
                    lemma_last_dot_none(s0);
                }
                Vec::new()
            },
        }
    }

    /// The folder this path belongs to: the path itself when it is a
    /// directory, else its parent.
    pub fn containing_folder(&self, is_dir: bool) -> (r: Vec<u8>)
        ensures
            is_dir ==> r@ == self@,
            !is_dir ==> r@ == parent_of(self@),
    {
        if is_dir {
            let copy = self.data.clone();
            proof {
                assert(copy@ =~= self@);
            }
            return copy;
        }
        let ghost segseq = segments_of(self@);
        let mut segs = self.segments();
        let mut r: Vec<u8> = Vec::new();
        if self.data.len() > 0 && self.data[0] == SEPARATOR {
            r.push(SEPARATOR);
        }
        if segs.len() <= 1 {
            return r;
        }
        let _ = segs.pop();
        let ghost lead = r@;
        let ghost kept = segseq.drop_last();
        let mut i: usize = 0;
        while i < segs.len()
            invariant
                segs@.len() == kept.len(),
                forall|j: int| 0 <= j < segs@.len() ==> #[trigger] segs@[j]@ == kept[j],
                0 <= i <= segs@.len(),
                kept.len() >= 1,
                i == 0 ==> r@ == lead,
                i > 0 ==> r@ == lead + joined(kept.take(i as int)),
            decreases segs@.len() - i,
        {
            if i > 0 {
                r.push(SEPARATOR);
            }
            let seg = &segs[i];
            let mut k: usize = 0;
            let ghost base = r@;
            while k < seg.len()
                invariant
                    0 <= k <= seg@.len(),
                    r@ == base + seg@.take(k as int),
                decreases seg@.len() - k,
            {
                r.push(seg[k]);
                proof {
                    assert(base + seg@.take(k as int) + seq![seg@[k as int]] =~= base
                        + seg@.take(k + 1));
                }
                k = k + 1;
            }
            proof {
                assert(r@ == base + seg@.take(seg@.len() as int));
                assert(seg@.take(seg@.len() as int) =~= seg@);
                lemma_joined_snoc(kept.take(i as int), kept[i as int]);
                assert(kept.take(i as int).push(kept[i as int]) =~= kept.take(i + 1));
                if i == 0 {
                    assert(r@ =~= lead + joined(kept.take(1)));
                } else {
                    assert(r@ =~= lead + joined(kept.take(i + 1)));
                }
            }
            i = i + 1;
        }
        proof {
            assert(kept.take(kept.len() as int) =~= kept);
        }
        r
    }
}

/// Yields the path's segments in order, front to back.
pub struct FilePathIterator<'a> {
    index: usize,
    inner: &'a Vec<u8>,
}

impl<'a> FilePathIterator<'a> {
    pub closed spec fn wf(&self) -> bool {
        self.index <= self.inner@.len()
    }

    /// The bytes being iterated.
    pub closed spec fn source(&self) -> Seq<u8> {
        self.inner@
    }

    /// The segments not yet yielded.
    pub closed spec fn remaining(&self) -> Seq<Seq<u8>> {
        segments_of(self.inner@.skip(self.index as int))
    }

    /// Yield the next segment: the next non-empty separator-free run.
    pub fn next(&mut self) -> (r: Option<Vec<u8>>)
        requires
            old(self).wf(),
        ensures
            final(self).wf(),
            final(self).source() == old(self).source(),
            match r {
                Some(s) => {
                    &&& old(self).remaining().len() > 0
                    &&& s@ == old(self).remaining()[0]
                    &&& final(self).remaining() == old(self).remaining().skip(1)
                },
                None => {
                    &&& old(self).remaining().len() == 0
                    &&& final(self).remaining().len() == 0
                },
            },
    {
        while self.index < self.inner.len() && self.inner[self.index] == SEPARATOR
            invariant
                self.wf(),
                self.inner == old(self).inner,
                self.remaining() == old(self).remaining(),
            decreases self.inner@.len() - self.index,
        {
            proof {
                assert(self.inner@.skip(self.index as int).skip(1) =~= self.inner@.skip(
                    self.index + 1,
                ));
            }
            self.index = self.index + 1;
        }
        if self.index >= self.inner.len() {
            proof {
                assert(self.inner@.skip(self.index as int) =~= Seq::<u8>::empty());
            }
            return None;
        }
        let start = self.index;
        while self.index < self.inner.len() && self.inner[self.index] != SEPARATOR
            invariant
                start <= self.index <= self.inner@.len(),
                self.inner == old(self).inner,
                forall|j: int| start <= j < self.index ==> !is_sep(self.inner@[j]),
            decreases self.inner@.len() - self.index,
        {
            self.index = self.index + 1;
        }
        let ghost q = self.inner@.skip(start as int);
        proof {
            lemma_run_len_at(q, self.index - start);
            assert(q.skip(self.index - start) =~= self.inner@.skip(self.index as int));
        }
        let mut s: Vec<u8> = Vec::new();
        let mut k = start;
        while k < self.index
            invariant
                start <= k <= self.index <= self.inner@.len(),
                self.inner == old(self).inner,
                s@ == self.inner@.subrange(start as int, k as int),
            decreases self.index - k,
        {
            s.push(self.inner[k]);
            proof {
                assert(self.inner@.subrange(start as int, k as int).push(
                    self.inner@[k as int],
                ) =~= self.inner@.subrange(start as int, k + 1));
            }
            k = k + 1;
        }
        proof {
            assert(s@ =~= q.take(run_len(q) as int));
            assert((seq![q.take(run_len(q) as int)] + segments_of(q.skip(run_len(q) as int)))
                .skip(1) =~= segments_of(q.skip(run_len(q) as int)));
        }
        Some(s)
    }
}

/// `run_len(p) == k` exactly when the first `k` bytes are separator-free and
/// byte `k`, if any, is a separator.
proof fn lemma_run_len_at(p: Seq<u8>, k: int)
    requires
        0 <= k <= p.len(),
        forall|i: int| 0 <= i < k ==> !is_sep(p[i]),
        k == p.len() || is_sep(p[k]),
    ensures
        run_len(p) == k,
    decreases k,
{
    if k == 0 {
    } else {
        assert(!is_sep(p[0]));
        lemma_run_len_at(p.skip(1), k - 1);
    }
}

/// A sequence with no dot has `last_dot == -1`.
proof fn lemma_last_dot_none(s: Seq<u8>)
    requires
        forall|j: int| 0 <= j < s.len() ==> s[j] != DOT,
    ensures
        last_dot(s) == -1,
    decreases s.len(),
{
    if s.len() > 0 {
        lemma_last_dot_none(s.drop_last());
    }
}

/// A dot at `k` with none after it is the rightmost dot.
proof fn lemma_last_dot_at(s: Seq<u8>, k: int)
    requires
        0 <= k < s.len(),
        s[k] == DOT,
        forall|j: int| k < j < s.len() ==> s[j] != DOT,
    ensures
        last_dot(s) == k,
    decreases s.len(),
{
    if k < s.len() - 1 {
        lemma_last_dot_at(s.drop_last(), k);
    }
}

/// No two separators stand next to each other in `p`.
pub open spec fn no_consecutive_seps(p: Seq<u8>) -> bool {
    forall|i: int| 0 <= i < p.len() - 1 ==> !(is_sep(#[trigger] p[i]) && is_sep(p[i + 1]))
}

/// `p` without a single leading and a single trailing separator.
pub open spec fn strip_trailing(p: Seq<u8>) -> Seq<u8> {
    if p.len() > 0 && is_sep(p.last()) {
        p.drop_last()
    } else {
        p
    }
}

pub open spec fn strip_seps(p: Seq<u8>) -> Seq<u8> {
    if p.len() > 0 && is_sep(p[0]) {
        strip_trailing(p.skip(1))
    } else {
        strip_trailing(p)
    }
}

/// A non-empty separator-free prefix: its extent and what bounds it.
proof fn lemma_run_len_props(p: Seq<u8>)
    requires
        p.len() > 0,
        !is_sep(p[0]),
    ensures
        1 <= run_len(p) <= p.len(),
        forall|i: int| 0 <= i < run_len(p) ==> !is_sep(#[trigger] p[i]),
        run_len(p) == p.len() || is_sep(p[run_len(p) as int]),
    decreases p.len(),
{
    if p.len() > 1 && !is_sep(p[1]) {
        assert(p.skip(1)[0] == p[1]);
        lemma_run_len_props(p.skip(1));
        assert(run_len(p) == 1 + run_len(p.skip(1)));
        assert forall|i: int| 0 <= i < run_len(p) implies !is_sep(#[trigger] p[i]) by {
            if i >= 1 {
                assert(p.skip(1)[i - 1] == p[i]);
                assert(!is_sep(p.skip(1)[i - 1]));
            }
        }
        if run_len(p) < p.len() {
            assert(is_sep(p.skip(1)[run_len(p.skip(1)) as int]));
            assert(p[run_len(p) as int] == p.skip(1)[run_len(p.skip(1)) as int]);
        }
    } else {
        if p.len() > 1 {
            assert(p.skip(1)[0] == p[1]);
        }
        assert(run_len(p.skip(1)) == 0);
        assert(run_len(p) == 1);
    }
}

/// Joining the segments of a path with no leading separator restores the
/// path, up to one trailing separator.
proof fn lemma_join_no_lead(q: Seq<u8>)
    requires
        no_consecutive_seps(q),
        q.len() == 0 || !is_sep(q[0]),
    ensures
        joined(segments_of(q)) == strip_trailing(q),
    decreases q.len(),
{
    if q.len() == 0 {
    } else {
        lemma_run_len_props(q);
        let k = run_len(q) as int;
        let r = q.take(k);
        if k == q.len() {
            assert(q.skip(k) =~= Seq::<u8>::empty());
            assert(seq![r] + segments_of(q.skip(k)) =~= seq![r]);
            assert(joined(seq![r]) == r);
            assert(r =~= q);
            assert(!is_sep(q.last()));
        } else {
            assert(is_sep(q[k]));
            let rest = q.skip(k + 1);
            assert(q.skip(k).skip(1) =~= rest);
            if rest.len() == 0 {
                assert(q.skip(k)[0] == q[k]);
                assert(q.skip(k).len() == 1);
                assert(rest =~= Seq::<u8>::empty());
                assert(segments_of(q.skip(k)) == segments_of(rest));
                assert(segments_of(q.skip(k)) =~= Seq::<Seq<u8>>::empty());
                assert(seq![r] + segments_of(q.skip(k)) =~= seq![r]);
                assert(joined(seq![r]) == r);
                assert(is_sep(q.last()));
                assert(r =~= q.drop_last());
            } else {
                assert(!is_sep(rest[0]));
                assert(no_consecutive_seps(rest)) by {
                    assert(forall|i: int|
                        0 <= i < rest.len() ==> #[trigger] rest[i] == q[i + k + 1]);
                }
                lemma_join_no_lead(rest);
                let s = segments_of(rest);
                assert(s.len() > 0);
                assert(segments_of(q.skip(k)) == s);
                let all = seq![r] + s;
                assert(all.len() >= 2);
                assert(joined(all) == all[0] + seq![SEPARATOR] + joined(all.skip(1)));
                assert(all[0] == r);
                assert(all.skip(1) =~= s);
                assert(joined(all) == r + seq![SEPARATOR] + strip_trailing(rest));
                if is_sep(rest.last()) {
                    assert(q.last() == rest.last());
                    assert(r + seq![SEPARATOR] + rest.drop_last() =~= q.drop_last());
                } else {
                    assert(q.last() == rest.last());
                    assert(r + seq![SEPARATOR] + rest =~= q);
                }
            }
        }
    }
}

/// The segments of a path, joined by the separator, restore the path up to
/// one leading and one trailing separator — provided no two separators stand
/// next to each other.
pub proof fn lemma_segments_reconstruct(p: Seq<u8>)
    requires
        no_consecutive_seps(p),
    ensures
        joined(segments_of(p)) == strip_seps(p),
{
    if p.len() > 0 && is_sep(p[0]) {
        let q = p.skip(1);
        assert(q.len() == 0 || !is_sep(q[0]));
        assert(no_consecutive_seps(q)) by {
            assert(forall|i: int| 0 <= i < q.len() ==> #[trigger] q[i] == p[i + 1]);
        }
        lemma_join_no_lead(q);
    } else {
        lemma_join_no_lead(p);
    }
}

/// Segments distribute over concatenation at a separator: bytes appended
/// after a separator form their own segments and leave the earlier ones as
/// they were.
pub proof fn lemma_segments_concat_at_sep(c: Seq<u8>, d: Seq<u8>)
    requires
        d.len() == 0 || is_sep(d[0]),
    ensures
        segments_of(c + d) == segments_of(c) + segments_of(d),
    decreases c.len(),
{
    if d.len() == 0 {
        assert(c + d =~= c);
        assert(segments_of(c) + segments_of(d) =~= segments_of(c));
    } else if c.len() == 0 {
        assert(c + d =~= d);
        assert(segments_of(c) + segments_of(d) =~= segments_of(d));
    } else if is_sep(c[0]) {
        assert((c + d).skip(1) =~= c.skip(1) + d);
        lemma_segments_concat_at_sep(c.skip(1), d);
        assert(is_sep((c + d)[0]));
    } else {
        lemma_run_len_props(c);
        let k = run_len(c) as int;
        assert forall|i: int| 0 <= i < k implies !is_sep(#[trigger] (c + d)[i]) by {
            assert((c + d)[i] == c[i]);
        }
        if k < c.len() {
            assert((c + d)[k] == c[k]);
        } else {
            assert((c + d)[k] == d[0]);
        }
        lemma_run_len_at(c + d, k);
        assert((c + d).take(k) =~= c.take(k));
        assert((c + d).skip(k) =~= c.skip(k) + d);
        lemma_segments_concat_at_sep(c.skip(k), d);
        assert(seq![c.take(k)] + (segments_of(c.skip(k)) + segments_of(d)) =~= (seq![c.take(k)]
            + segments_of(c.skip(k))) + segments_of(d));
    }
}

/// The name of a path is its last segment.
pub proof fn lemma_name_is_last_segment(p: Seq<u8>)
    requires
        segments_of(p).len() > 0,
    ensures
        name_of(p) == segments_of(p).last(),
{
}

/// Where the rightmost dot of a sequence sits.
proof fn lemma_last_dot_props(s: Seq<u8>)
    ensures
        last_dot(s) == -1 || 0 <= last_dot(s) < s.len(),
        last_dot(s) == -1 ==> forall|j: int| 0 <= j < s.len() ==> s[j] != DOT,
        last_dot(s) >= 0 ==> s[last_dot(s)] == DOT && forall|j: int|
            last_dot(s) < j < s.len() ==> s[j] != DOT,
    decreases s.len(),
{
    if s.len() > 0 && s[s.len() - 1] != DOT {
        lemma_last_dot_props(s.drop_last());
        let d = last_dot(s);
        assert(d == last_dot(s.drop_last()));
        if d == -1 {
            assert forall|j: int| 0 <= j < s.len() implies s[j] != DOT by {
                if j < s.len() - 1 {
                    assert(s.drop_last()[j] == s[j]);
                }
            }
        } else {
            assert(s.drop_last()[d] == s[d]);
            assert forall|j: int| d < j < s.len() implies s[j] != DOT by {
                if j < s.len() - 1 {
                    assert(s.drop_last()[j] == s[j]);
                }
            }
        }
    }
}

/// The extension of a path is non-empty exactly when its final segment holds
/// a dot and does not end in one.
pub proof fn lemma_file_ext_nonempty(p: Seq<u8>)
    ensures
        ext_of(p).len() > 0 <==> {
            &&& segments_of(p).len() > 0
            &&& exists|i: int| 0 <= i < name_of(p).len() && name_of(p)[i] == DOT
            &&& name_of(p).last() != DOT
        },
{
    if segments_of(p).len() > 0 {
        let s = name_of(p);
        lemma_last_dot_props(s);
        let d = last_dot(s);
        assert(s == segments_of(p).last());
        assert(ext_of(p) == ext_of_segment(s));
        if ext_of(p).len() > 0 {
            assert(d >= 0);
            assert(s[d] == DOT);
            assert(d < s.len() - 1);
            assert(s.last() != DOT);
        } else {
            if d >= 0 {
                assert(s.skip(d + 1).len() == 0);
                assert(d == s.len() - 1);
                assert(s.last() == DOT);
            }
        }
    }
}

/// Appending one segment to a join appends a separator and the segment.
#[verifier::rlimit(50)]
proof fn lemma_joined_snoc(t: Seq<Seq<u8>>, x: Seq<u8>)
    ensures
        t.len() == 0 ==> joined(t.push(x)) == x,
        t.len() > 0 ==> joined(t.push(x)) == joined(t) + seq![SEPARATOR] + x,
    decreases t.len(),
{
    if t.len() == 0 {
        assert(joined(t.push(x)) == t.push(x)[0]);
        assert(t.push(x)[0] == x);
    } else if t.len() == 1 {
        assert(t.push(x).skip(1) =~= seq![x]);
        assert(joined(seq![x]) == x);
        assert(joined(t.push(x)) == t.push(x)[0] + seq![SEPARATOR] + joined(t.push(x).skip(1)));
        assert(t.push(x)[0] == t[0]);
        assert(joined(t) == t[0]);
    } else {
        let t1 = t.skip(1);
        lemma_joined_snoc(t1, x);
        assert(t.push(x).skip(1) =~= t1.push(x));
        assert(joined(t.push(x)) == t.push(x)[0] + seq![SEPARATOR] + joined(t.push(x).skip(1)));
        assert(t.push(x)[0] == t[0]);
        assert(joined(t1.push(x)) == joined(t1) + seq![SEPARATOR] + x);
        assert(joined(t) == t[0] + seq![SEPARATOR] + joined(t1));
        assert(t[0] + seq![SEPARATOR] + (joined(t1) + seq![SEPARATOR] + x) =~= (t[0]
            + seq![SEPARATOR] + joined(t1)) + seq![SEPARATOR] + x);
    }
}

} // verus!

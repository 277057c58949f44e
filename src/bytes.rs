//! Byte-string helpers shared by the classifier and the loader.

use vstd::prelude::*;

verus! {

/// The byte strings held by a vector of byte vectors.
pub open spec fn ids(v: Seq<Vec<u8>>) -> Seq<Seq<u8>> {
    v.map_values(|w: Vec<u8>| w@)
}

/// `p` is a prefix of `s`.
pub open spec fn has_prefix(s: Seq<u8>, p: Seq<u8>) -> bool {
    p.len() <= s.len() && s.subrange(0, p.len() as int) == p
}

/// `p` is a suffix of `s`.
pub open spec fn has_suffix(s: Seq<u8>, p: Seq<u8>) -> bool {
    p.len() <= s.len() && s.subrange(s.len() - p.len(), s.len() as int) == p
}

/// The first index at or after `i` that holds `b`, or the length if none does.
pub open spec fn next_index(s: Seq<u8>, b: u8, i: int) -> int
    decreases s.len() - i,
{
    if i >= s.len() {
        s.len() as int
    } else if s[i] == b {
        i
    } else {
        next_index(s, b, i + 1)
    }
}

/// The index just after the last `b` in `s[..i]`, or 0 if there is none.
pub open spec fn after_last(s: Seq<u8>, b: u8, i: int) -> int
    decreases i,
{
    if i <= 0 {
        0
    } else if s[i - 1] == b {
        i
    } else {
        after_last(s, b, i - 1)
    }
}

/// `s` with its leading space bytes removed.
pub open spec fn trimmed(s: Seq<u8>) -> Seq<u8>
    decreases s.len(),
{
    if s.len() > 0 && s[0] == 0x20u8 {
        trimmed(s.drop_first())
    } else {
        s
    }
}

/// `s` without the suffix `p` if it ends with it, else `s` itself.
pub open spec fn without_suffix(s: Seq<u8>, p: Seq<u8>) -> Seq<u8> {
    if has_suffix(s, p) {
        s.subrange(0, s.len() - p.len())
    } else {
        s
    }
}

/// `s` without the prefix `p` if it starts with it, else `s` itself.
pub open spec fn without_prefix(s: Seq<u8>, p: Seq<u8>) -> Seq<u8> {
    if has_prefix(s, p) {
        s.subrange(p.len() as int, s.len() as int)
    } else {
        s
    }
}

/// `s` up to (not including) its last `.`, or `s` itself if it has none.
pub open spec fn stem(s: Seq<u8>) -> Seq<u8> {
    let d = after_last(s, 0x2Eu8, s.len() as int);
    if d == 0 {
        s
    } else {
        s.subrange(0, d - 1)
    }
}

pub proof fn lemma_prefix_parts(s: Seq<u8>, p: Seq<u8>, q: Seq<u8>)
    requires
        has_prefix(s, p + q),
    ensures
        has_prefix(s, p),
        forall|k: int| 0 <= k < q.len() ==> s[p.len() + k] == q[k],
{
    let n = (p + q).len() as int;
    assert forall|k: int| 0 <= k < p.len() implies s[k] == p[k] by {
        assert(s.subrange(0, n)[k] == (p + q)[k]);
    }
    assert(s.subrange(0, p.len() as int) =~= p);
    assert forall|k: int| 0 <= k < q.len() implies s[p.len() + k] == q[k] by {
        assert(s.subrange(0, n)[p.len() + k] == (p + q)[p.len() + k]);
    }
}

pub proof fn lemma_prefix_first(s: Seq<u8>, p: Seq<u8>)
    requires
        has_prefix(s, p),
        p.len() > 0,
    ensures
        s[0] == p[0],
{
    assert(s.subrange(0, p.len() as int)[0] == s[0]);
}

pub proof fn lemma_next_index_bounds(s: Seq<u8>, b: u8, i: int)
    requires
        0 <= i <= s.len(),
    ensures
        i <= next_index(s, b, i) <= s.len(),
        next_index(s, b, i) < s.len() ==> s[next_index(s, b, i)] == b,
        forall|k: int| i <= k < next_index(s, b, i) ==> s[k] != b,
    decreases s.len() - i,
{
    if i < s.len() && s[i] != b {
        lemma_next_index_bounds(s, b, i + 1);
    }
}

pub proof fn lemma_after_last_bounds(s: Seq<u8>, b: u8, i: int)
    requires
        0 <= i <= s.len(),
    ensures
        0 <= after_last(s, b, i) <= i,
        after_last(s, b, i) > 0 ==> s[after_last(s, b, i) - 1] == b,
    decreases i,
{
    if i > 0 && s[i - 1] != b {
        lemma_after_last_bounds(s, b, i - 1);
    }
}

/// `s[lo..hi]` as a new vector.
pub fn copy_range(s: &[u8], lo: usize, hi: usize) -> (r: Vec<u8>)
    requires
        lo <= hi <= s@.len(),
    ensures
        r@ == s@.subrange(lo as int, hi as int),
{
    let mut r: Vec<u8> = Vec::new();
    let mut i: usize = lo;
    while i < hi
        invariant
            lo <= i <= hi <= s@.len(),
            r@ == s@.subrange(lo as int, i as int),
        decreases hi - i,
    {
        r.push(s[i]);
        i = i + 1;
        assert(r@ =~= s@.subrange(lo as int, i as int));
    }
    r
}

/// Appends the bytes of `s` to `v`.
pub fn append_bytes(v: &mut Vec<u8>, s: &[u8])
    ensures
        final(v)@ == old(v)@ + s@,
{
    let mut i: usize = 0;
    while i < s.len()
        invariant
            0 <= i <= s@.len(),
            v@ == old(v)@ + s@.subrange(0, i as int),
        decreases s@.len() - i,
    {
        v.push(s[i]);
        i = i + 1;
        assert(v@ =~= old(v)@ + s@.subrange(0, i as int));
    }
    assert(s@.subrange(0, s@.len() as int) =~= s@);
}

/// Whether `a` and `b` hold the same bytes.
pub fn bytes_eq(a: &[u8], b: &[u8]) -> (r: bool)
    ensures
        r == (a@ == b@),
{
    if a.len() != b.len() {
        return false;
    }
    let mut i: usize = 0;
    while i < a.len()
        invariant
            a@.len() == b@.len(),
            0 <= i <= a@.len(),
            forall|k: int| 0 <= k < i ==> a@[k] == b@[k],
        decreases a@.len() - i,
    {
        if a[i] != b[i] {
            return false;
        }
        i = i + 1;
    }
    assert(a@ =~= b@);
    true
}

/// Whether `v` holds the byte string `x`.
pub fn contains_id(v: &[Vec<u8>], x: &[u8]) -> (r: bool)
    ensures
        r == ids(v@).contains(x@),
{
    let mut i: usize = 0;
    while i < v.len()
        invariant
            i <= v@.len(),
            forall|k: int| 0 <= k < i ==> v@[k]@ != x@,
        decreases v@.len() - i,
    {
        if bytes_eq(v[i].as_slice(), x) {
            assert(ids(v@)[i as int] == x@);
            return true;
        }
        i = i + 1;
    }
    assert forall|k: int| 0 <= k < ids(v@).len() implies ids(v@)[k] != x@ by {
        assert(ids(v@)[k] == v@[k]@);
    }
    false
}

/// Whether `s` starts with `p`.
pub fn starts_with(s: &[u8], p: &[u8]) -> (r: bool)
    ensures
        r == has_prefix(s@, p@),
{
    if p.len() > s.len() {
        return false;
    }
    let mut i: usize = 0;
    while i < p.len()
        invariant
            p@.len() <= s@.len(),
            0 <= i <= p@.len(),
            forall|k: int| 0 <= k < i ==> s@[k] == p@[k],
        decreases p@.len() - i,
    {
        if s[i] != p[i] {
            assert(s@.subrange(0, p@.len() as int)[i as int] != p@[i as int]);
            return false;
        }
        i = i + 1;
    }
    assert(s@.subrange(0, p@.len() as int) =~= p@);
    true
}

/// Whether `s` ends with `p`.
pub fn ends_with(s: &[u8], p: &[u8]) -> (r: bool)
    ensures
        r == has_suffix(s@, p@),
{
    if p.len() > s.len() {
        return false;
    }
    let off: usize = s.len() - p.len();
    let mut i: usize = 0;
    while i < p.len()
        invariant
            p@.len() <= s@.len(),
            off == s@.len() - p@.len(),
            s@.len() == s.len(),
            0 <= i <= p@.len(),
            forall|k: int| 0 <= k < i ==> s@[off + k] == p@[k],
        decreases p@.len() - i,
    {
        if s[off + i] != p[i] {
            assert(s@.subrange(off as int, s@.len() as int)[i as int] != p@[i as int]);
            return false;
        }
        i = i + 1;
    }
    assert(s@.subrange(off as int, s@.len() as int) =~= p@);
    true
}

/// The first index at or after `i` that holds `b`, or the length.
pub fn find_next(s: &[u8], b: u8, i: usize) -> (r: usize)
    requires
        i <= s@.len(),
    ensures
        r == next_index(s@, b, i as int),
{
    let mut j: usize = i;
    while j < s.len() && s[j] != b
        invariant
            i <= j <= s@.len(),
            next_index(s@, b, i as int) == next_index(s@, b, j as int),
        decreases s@.len() - j,
    {
        j = j + 1;
    }
    j
}

/// The index just after the last `b` in `s`, or 0.
pub fn find_after_last(s: &[u8], b: u8) -> (r: usize)
    ensures
        r == after_last(s@, b, s@.len() as int),
{
    let mut j: usize = s.len();
    while j > 0 && s[j - 1] != b
        invariant
            j <= s@.len(),
            after_last(s@, b, s@.len() as int) == after_last(s@, b, j as int),
        decreases j,
    {
        j = j - 1;
    }
    j
}

/// `s` without its leading space bytes.
pub fn trim_start(s: &[u8]) -> (r: Vec<u8>)
    ensures
        r@ == trimmed(s@),
{
    let mut j: usize = 0;
    assert(s@.subrange(0, s@.len() as int) =~= s@);
    while j < s.len() && s[j] == 0x20u8
        invariant
            j <= s@.len(),
            trimmed(s@) == trimmed(s@.subrange(j as int, s@.len() as int)),
        decreases s@.len() - j,
    {
        assert(s@.subrange(j as int, s@.len() as int).drop_first() =~= s@.subrange(
            j + 1,
            s@.len() as int,
        ));
        j = j + 1;
    }
    copy_range(s, j, s.len())
}

/// `s` without the suffix `p` if it ends with it.
pub fn strip_suffix(s: &[u8], p: &[u8]) -> (r: Vec<u8>)
    ensures
        r@ == without_suffix(s@, p@),
{
    if ends_with(s, p) {
        copy_range(s, 0, s.len() - p.len())
    } else {
        copy_range(s, 0, s.len())
    }
}

/// `s` without the prefix `p` if it starts with it.
pub fn strip_prefix(s: &[u8], p: &[u8]) -> (r: Vec<u8>)
    ensures
        r@ == without_prefix(s@, p@),
{
    if starts_with(s, p) {
        copy_range(s, p.len(), s.len())
    } else {
        copy_range(s, 0, s.len())
    }
}

/// `s` up to its last `.`, or all of `s` if it holds none.
pub fn strip_extension(s: &[u8]) -> (r: Vec<u8>)
    ensures
        r@ == stem(s@),
{
    let d = find_after_last(s, 0x2Eu8);
    proof {
        lemma_after_last_bounds(s@, 0x2Eu8, s@.len() as int);
    }
    if d == 0 {
        copy_range(s, 0, s.len())
    } else {
        copy_range(s, 0, d - 1)
    }
}

/// The byte-string operations that identifiers and file names need.
pub trait OsStrExt: View<V = Seq<u8>> {
    fn strip_extension(&self) -> (r: Vec<u8>)
        ensures
            r@ == stem(self@),
    ;

    fn strip_suffix(&self, suffix: &[u8]) -> (r: Vec<u8>)
        ensures
            r@ == without_suffix(self@, suffix@),
    ;

    fn strip_prefix(&self, prefix: &[u8]) -> (r: Vec<u8>)
        ensures
            r@ == without_prefix(self@, prefix@),
    ;

    fn ends_with(&self, suffix: &[u8]) -> (r: bool)
        ensures
            r == has_suffix(self@, suffix@),
    ;

    fn starts_with(&self, prefix: &[u8]) -> (r: bool)
        ensures
            r == has_prefix(self@, prefix@),
    ;

    fn trim_start(&self) -> (r: Vec<u8>)
        ensures
            r@ == trimmed(self@),
    ;
}

impl OsStrExt for [u8] {
    fn strip_extension(&self) -> (r: Vec<u8>) {
        strip_extension(self)
    }

    fn strip_suffix(&self, suffix: &[u8]) -> (r: Vec<u8>) {
        strip_suffix(self, suffix)
    }

    fn strip_prefix(&self, prefix: &[u8]) -> (r: Vec<u8>) {
        strip_prefix(self, prefix)
    }

    fn ends_with(&self, suffix: &[u8]) -> (r: bool) {
        ends_with(self, suffix)
    }

    fn starts_with(&self, prefix: &[u8]) -> (r: bool) {
        starts_with(self, prefix)
    }

    fn trim_start(&self) -> (r: Vec<u8>) {
        trim_start(self)
    }
}

} // verus!

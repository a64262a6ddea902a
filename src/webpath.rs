use vstd::prelude::*;

verus! {

/// The state of a left-to-right scan of `b[0..n]` that splits on `/`:
/// the segments completed so far and the segment being read.
pub open spec fn split_state(b: Seq<u8>, n: nat) -> (Seq<Seq<u8>>, Seq<u8>)
    decreases n,
{
    if n == 0 || n > b.len() {
        (Seq::empty(), Seq::empty())
    } else {
        let (done, cur) = split_state(b, (n - 1) as nat);
        if b[n - 1] == 0x2fu8 {
            if cur.len() > 0 {
                (done.push(cur), Seq::empty())
            } else {
                (done, Seq::empty())
            }
        } else {
            (done, cur.push(b[n - 1]))
        }
    }
}

/// The segments of a path: split on `/`, empty components dropped.
/// The root is the empty sequence of segments.
pub open spec fn segments(b: Seq<u8>) -> Seq<Seq<u8>> {
    let (done, cur) = split_state(b, b.len());
    if cur.len() > 0 {
        done.push(cur)
    } else {
        done
    }
}

/// A normalized absolute path, held as its bytes.
#[derive(Debug, Clone)]
pub struct WebPath {
    bytes: Vec<u8>,
}

impl View for WebPath {
    type V = Seq<u8>;

    closed spec fn view(&self) -> Seq<u8> {
        self.bytes@
    }
}

impl WebPath {
    pub fn from_bytes(b: &[u8]) -> (r: WebPath)
        ensures
            r@ == b@,
    {
        let mut v: Vec<u8> = Vec::new();
        let mut i: usize = 0;
        while i < b.len()
            invariant
                i <= b@.len(),
                v@ == b@.take(i as int),
            decreases b@.len() - i,
        {
            v.push(b[i]);
            i = i + 1;
            assert(v@ =~= b@.take(i as int));
        }
        assert(v@ =~= b@);
        WebPath { bytes: v }
    }

    pub fn as_bytes(&self) -> (r: &Vec<u8>)
        ensures
            r@ == self@,
    {
        &self.bytes
    }

    pub fn copy(&self) -> (r: WebPath)
        ensures
            r@ == self@,
    {
        WebPath { bytes: copy_bytes(&self.bytes) }
    }
}

pub fn copy_bytes(v: &Vec<u8>) -> (r: Vec<u8>)
    ensures
        r@ == v@,
{
    let mut out: Vec<u8> = Vec::new();
    let mut i: usize = 0;
    while i < v.len()
        invariant
            i <= v@.len(),
            out@ == v@.take(i as int),
        decreases v@.len() - i,
    {
        out.push(v[i]);
        i = i + 1;
        assert(out@ =~= v@.take(i as int));
    }
    assert(out@ =~= v@);
    out
}

pub fn bytes_equal(a: &Vec<u8>, b: &Vec<u8>) -> (r: bool)
    ensures
        r == (a@ == b@),
{
    if a.len() != b.len() {
        return false;
    }
    let mut i: usize = 0;
    while i < a.len()
        invariant
            i <= a@.len(),
            a@.len() == b@.len(),
            forall|j: int| 0 <= j < i ==> a@[j] == b@[j],
        decreases a@.len() - i,
    {
        if a[i] != b[i] {
            return false;
        }
        i = i + 1;
    }
    assert(a@ =~= b@);
    true
}

/// Whether `a` is a prefix of `b`, segment by segment.
pub fn is_prefix_path(a: &Vec<Vec<u8>>, b: &Vec<Vec<u8>>) -> (r: bool)
    ensures
        r == seg_view(a@).is_prefix_of(seg_view(b@)),
{
    if a.len() > b.len() {
        return false;
    }
    let mut i: usize = 0;
    while i < a.len()
        invariant
            i <= a@.len(),
            a@.len() <= b@.len(),
            forall|j: int| 0 <= j < i ==> a@[j]@ == b@[j]@,
        decreases a@.len() - i,
    {
        if !bytes_equal(&a[i], &b[i]) {
            assert(seg_view(a@)[i as int] != seg_view(b@)[i as int]);
            return false;
        }
        i = i + 1;
    }
    assert(seg_view(a@) =~= seg_view(b@).subrange(0, a@.len() as int));
    true
}

/// A copy of a segment sequence.
pub fn copy_path(v: &Vec<Vec<u8>>) -> (r: Vec<Vec<u8>>)
    ensures
        seg_view(r@) == seg_view(v@),
{
    let mut out: Vec<Vec<u8>> = Vec::new();
    let mut i: usize = 0;
    while i < v.len()
        invariant
            i <= v@.len(),
            seg_view(out@) == seg_view(v@).take(i as int),
        decreases v@.len() - i,
    {
        let ghost before = out@;
        let c = copy_bytes(&v[i]);
        out.push(c);
        assert(seg_view(out@) =~= seg_view(before).push(c@));
        i = i + 1;
        assert(seg_view(out@) =~= seg_view(v@).take(i as int));
    }
    assert(seg_view(out@) =~= seg_view(v@));
    out
}

/// Whether two segment sequences are equal.
pub fn path_equal(a: &Vec<Vec<u8>>, b: &Vec<Vec<u8>>) -> (r: bool)
    ensures
        r == (seg_view(a@) == seg_view(b@)),
{
    if a.len() != b.len() {
        return false;
    }
    let r = is_prefix_path(a, b);
    proof {
        if r {
            assert(seg_view(a@) =~= seg_view(b@));
        }
    }
    r
}

/// The bytes of each segment.
pub open spec fn seg_view(v: Seq<Vec<u8>>) -> Seq<Seq<u8>> {
    v.map_values(|s: Vec<u8>| s@)
}

/// Splits a path into its segments: `/` separates, empty components are dropped.
pub fn split_segments(path: &Vec<u8>) -> (r: Vec<Vec<u8>>)
    ensures
        seg_view(r@) == segments(path@),
{
    let mut done: Vec<Vec<u8>> = Vec::new();
    let mut cur: Vec<u8> = Vec::new();
    let mut i: usize = 0;
    while i < path.len()
        invariant
            i <= path@.len(),
            (seg_view(done@), cur@) == split_state(path@, i as nat),
        decreases path@.len() - i,
    {
        if path[i] == 0x2fu8 {
            if cur.len() > 0 {
                let c = cur;
                done.push(c);
                cur = Vec::new();
                assert(seg_view(done@) =~= split_state(path@, i as nat).0.push(c@));
            }
        } else {
            cur.push(path[i]);
        }
        i = i + 1;
    }
    if cur.len() > 0 {
        let c = cur;
        done.push(c);
        assert(seg_view(done@) =~= segments(path@));
    }
    done
}

} // verus!

//! A consistent hash ring for sticky session routing. Each member is placed on
//! the ring at many virtual node positions so that adding or removing a member
//! remaps only a small fraction of keys.

use vstd::prelude::*;
use vstd::string::*;

use crate::rng::mix64;
use crate::rng::mixed;

verus! {

/// FNV-1a over a byte sequence.
pub open spec fn fnv1a(bytes: Seq<u8>) -> u64
    decreases bytes.len(),
{
    if bytes.len() == 0 {
        0xcbf2_9ce4_8422_2325
    } else {
        (fnv1a(bytes.drop_last()) ^ (bytes.last() as u64)).wrapping_mul(0x0000_0100_0000_01b3)
    }
}

/// FNV-1a 64 bit. Stable across platforms.
pub fn fnv1a_64(bytes: &[u8]) -> (h: u64)
    ensures
        h == fnv1a(bytes@),
{
    let mut h: u64 = 0xcbf2_9ce4_8422_2325;
    let mut i: usize = 0;
    while i < bytes.len()
        invariant
            i <= bytes@.len(),
            h == fnv1a(bytes@.take(i as int)),
        decreases bytes@.len() - i,
    {
        h = (h ^ (bytes[i] as u64)).wrapping_mul(0x0000_0100_0000_01b3);
        assert(bytes@.take(i + 1).drop_last() =~= bytes@.take(i as int));
        i += 1;
    }
    assert(bytes@.take(bytes@.len() as int) =~= bytes@);
    h
}

/// The hash of a name or key.
pub open spec fn text_hash(s: Seq<char>) -> u64 {
    fnv1a(vstd::utf8::encode_utf8(s))
}

/// Where a key stands on the ring. Raw FNV-1a clusters keys that share a long
/// prefix, which would starve some members, so the hash is mixed like the ring
/// points are.
pub open spec fn key_point(key: Seq<char>) -> u64 {
    mixed(text_hash(key))
}

/// Where the virtual node `v` of a member stands on the ring.
pub open spec fn node_point(name: Seq<char>, v: u32) -> u64 {
    mixed(text_hash(name).wrapping_add(mixed(v as u64)))
}

/// The ring after the first `n` virtual nodes of a member were put on it. A
/// point that is already taken goes to the newcomer.
pub open spec fn with_nodes(ring: Map<u64, usize>, name: Seq<char>, id: usize, n: nat) -> Map<
    u64,
    usize,
>
    decreases n,
{
    if n == 0 {
        ring
    } else {
        with_nodes(ring, name, id, (n - 1) as nat).insert(node_point(name, (n - 1) as u32), id)
    }
}

/// The ring of a list of members, given as identity and name.
pub open spec fn ring_of(members: Seq<(usize, Seq<char>)>, vnodes: u32) -> Map<u64, usize>
    decreases members.len(),
{
    if members.len() == 0 {
        Map::empty()
    } else {
        with_nodes(
            ring_of(members.drop_last(), vnodes),
            members.last().1,
            members.last().0,
            vnodes as nat,
        )
    }
}

/// `p` is the first point of the ring at or after `h`.
pub open spec fn is_next_point(ring: Map<u64, usize>, h: u64, p: u64) -> bool {
    &&& ring.contains_key(p)
    &&& h <= p
    &&& forall|q: u64| #[trigger] ring.contains_key(q) && h <= q ==> p <= q
}

/// The identity that answers for the position `h`: the first point clockwise,
/// wrapping to the start of the ring past its end.
pub open spec fn owner_at(ring: Map<u64, usize>, h: u64) -> Option<usize> {
    if exists|p: u64| is_next_point(ring, h, p) {
        Some(ring[choose|p: u64| is_next_point(ring, h, p)])
    } else if exists|p: u64| is_next_point(ring, 0, p) {
        Some(ring[choose|p: u64| is_next_point(ring, 0, p)])
    } else {
        None
    }
}

/// The member responsible for a key.
pub open spec fn owner_of(ring: Map<u64, usize>, key: Seq<char>) -> Option<usize> {
    owner_at(ring, key_point(key))
}

proof fn lemma_next_point_decides(ring: Map<u64, usize>, h: u64, p: u64)
    requires
        is_next_point(ring, h, p),
    ensures
        owner_at(ring, h) == Some(ring[p]),
{
    let c = choose|q: u64| is_next_point(ring, h, q);
    assert(is_next_point(ring, h, c));
    assert(c == p);
}

proof fn lemma_wrapping_decides(ring: Map<u64, usize>, h: u64, p: u64)
    requires
        is_next_point(ring, 0, p),
        forall|q: u64| #[trigger] ring.contains_key(q) ==> q < h,
    ensures
        owner_at(ring, h) == Some(ring[p]),
{
    let c = choose|q: u64| is_next_point(ring, 0, q);
    assert(is_next_point(ring, 0, c));
    assert(c == p);
}

/// What placing a list of points one after the other leaves on the ring.
spec fn map_of(points: Seq<(u64, usize)>) -> Map<u64, usize>
    decreases points.len(),
{
    if points.len() == 0 {
        Map::empty()
    } else {
        map_of(points.drop_last()).insert(points.last().0, points.last().1)
    }
}

spec fn increasing(points: Seq<(u64, usize)>) -> bool {
    forall|i: int, j: int| 0 <= i < j < points.len() ==> points[i].0 < points[j].0
}

proof fn lemma_map_of_dom(points: Seq<(u64, usize)>)
    ensures
        forall|p: u64| #[trigger]
            map_of(points).contains_key(p) ==> exists|i: int|
                0 <= i < points.len() && (#[trigger] points[i]).0 == p,
        forall|i: int|
            0 <= i < points.len() ==> map_of(points).contains_key(#[trigger] points[i].0),
    decreases points.len(),
{
    if points.len() > 0 {
        let front = points.drop_last();
        lemma_map_of_dom(front);
        assert forall|p: u64| #[trigger] map_of(points).contains_key(p) implies exists|i: int|
            0 <= i < points.len() && (#[trigger] points[i]).0 == p by {
            if p == points.last().0 {
                assert(points[points.len() - 1].0 == p);
            } else {
                assert(map_of(front).contains_key(p));
                let i = choose|i: int| 0 <= i < front.len() && (#[trigger] front[i]).0 == p;
                assert(points[i].0 == p);
            }
        }
        assert forall|i: int| 0 <= i < points.len() implies map_of(points).contains_key(
            #[trigger] points[i].0,
        ) by {
            if i < front.len() {
                assert(front[i] == points[i]);
                assert(map_of(front).contains_key(front[i].0));
            }
        }
    }
}

proof fn lemma_map_of_increasing(points: Seq<(u64, usize)>)
    requires
        increasing(points),
    ensures
        forall|i: int|
            0 <= i < points.len() ==> map_of(points)[#[trigger] points[i].0] == points[i].1,
    decreases points.len(),
{
    if points.len() > 0 {
        let front = points.drop_last();
        lemma_map_of_increasing(front);
        assert forall|i: int| 0 <= i < points.len() implies map_of(points)[#[trigger] points[i].0]
            == points[i].1 by {
            if i < front.len() {
                assert(front[i] == points[i]);
                assert(points[i].0 < points[points.len() - 1].0);
            }
        }
    }
}

proof fn lemma_map_of_concat(a: Seq<(u64, usize)>, b: Seq<(u64, usize)>)
    ensures
        map_of(a + b) == map_of(a).union_prefer_right(map_of(b)),
    decreases b.len(),
{
    if b.len() == 0 {
        assert(a + b =~= a);
        assert(map_of(a).union_prefer_right(map_of(b)) =~= map_of(a));
    } else {
        lemma_map_of_concat(a, b.drop_last());
        assert((a + b).drop_last() =~= a + b.drop_last());
        assert((a + b).last() == b.last());
        assert(map_of(a + b) =~= map_of(a).union_prefer_right(map_of(b)));
    }
}

/// Put two increasing lists of points together, the second winning where both
/// hold a point.
fn merge(a: &Vec<(u64, usize)>, b: &Vec<(u64, usize)>) -> (out: Vec<(u64, usize)>)
    requires
        increasing(a@),
        increasing(b@),
    ensures
        increasing(out@),
        map_of(out@) == map_of(a@).union_prefer_right(map_of(b@)),
{
    let mut out: Vec<(u64, usize)> = Vec::new();
    let mut i: usize = 0;
    let mut j: usize = 0;
    assert(map_of(out@) =~= map_of(a@.take(0)).union_prefer_right(map_of(b@.take(0))));
    while i < a.len() || j < b.len()
        invariant
            increasing(a@),
            increasing(b@),
            i <= a@.len(),
            j <= b@.len(),
            increasing(out@),
            forall|k: int, m: int|
                0 <= k < out@.len() && i <= m < a@.len() ==> (#[trigger] out@[k]).0 < (
                #[trigger] a@[m]).0,
            forall|k: int, m: int|
                0 <= k < out@.len() && j <= m < b@.len() ==> (#[trigger] out@[k]).0 < (
                #[trigger] b@[m]).0,
            map_of(out@) == map_of(a@.take(i as int)).union_prefer_right(map_of(b@.take(j as int))),
        decreases a@.len() - i + b@.len() - j,
    {
        let ghost before = out@;
        let ghost a0 = a@.take(i as int);
        let ghost b0 = b@.take(j as int);
        proof {
            lemma_map_of_dom(before);
            lemma_map_of_dom(a0);
            lemma_map_of_dom(b0);
        }
        let take_a: bool = j == b.len() || (i < a.len() && a[i].0 < b[j].0);
        let take_b: bool = i == a.len() || (j < b.len() && b[j].0 <= a[i].0);
        if take_a {
            let x: (u64, usize) = a[i];
            out.push(x);
            proof {
                assert(out@.drop_last() =~= before);
                assert(a@.take(i + 1).drop_last() =~= a0);
                assert(!map_of(before).contains_key(x.0)) by {
                    if map_of(before).contains_key(x.0) {
                        let k = choose|k: int|
                            0 <= k < before.len() && (#[trigger] before[k]).0 == x.0;
                        assert(before[k].0 < a@[i as int].0);
                    }
                }
                assert(!map_of(b0).contains_key(x.0)) by {
                    if map_of(b0).contains_key(x.0) {
                        assert(map_of(before).contains_key(x.0));
                    }
                }
                assert(map_of(out@) =~= map_of(a@.take(i + 1)).union_prefer_right(map_of(b0)));
            }
            i += 1;
        } else {
            let x: (u64, usize) = b[j];
            let shared: bool = i < a.len() && a[i].0 == x.0;
            out.push(x);
            proof {
                assert(take_b);
                assert(out@.drop_last() =~= before);
                assert(b@.take(j + 1).drop_last() =~= b0);
                if shared {
                    assert(a@.take(i + 1).drop_last() =~= a0);
                    assert(map_of(out@) =~= map_of(a@.take(i + 1)).union_prefer_right(
                        map_of(b@.take(j + 1)),
                    ));
                } else {
                    assert(map_of(out@) =~= map_of(a0).union_prefer_right(map_of(b@.take(j + 1))));
                }
            }
            if shared {
                i += 1;
            }
            j += 1;
        }
    }
    assert(a@.take(a@.len() as int) =~= a@);
    assert(b@.take(b@.len() as int) =~= b@);
    out
}

/// The points from `lo` up to `hi` in ring order, a later point replacing an
/// earlier one at the same position.
fn sorted(points: &Vec<(u64, usize)>, lo: usize, hi: usize) -> (out: Vec<(u64, usize)>)
    requires
        lo <= hi <= points@.len(),
    ensures
        increasing(out@),
        map_of(out@) == map_of(points@.subrange(lo as int, hi as int)),
    decreases hi - lo,
{
    let n: usize = hi - lo;
    if n <= 1 {
        let mut out: Vec<(u64, usize)> = Vec::new();
        if n == 1 {
            out.push(points[lo]);
        }
        assert(out@ =~= points@.subrange(lo as int, hi as int));
        out
    } else {
        let mid: usize = lo + n / 2;
        let left: Vec<(u64, usize)> = sorted(points, lo, mid);
        let right: Vec<(u64, usize)> = sorted(points, mid, hi);
        proof {
            let l = points@.subrange(lo as int, mid as int);
            let r = points@.subrange(mid as int, hi as int);
            lemma_map_of_concat(l, r);
            assert(points@.subrange(lo as int, hi as int) =~= l + r);
        }
        merge(&left, &right)
    }
}

/// What a ring is: how many virtual nodes a member gets, the points, and the
/// identities it was built from.
pub struct RingView {
    pub vnodes: u32,
    pub points: Map<u64, usize>,
    pub members: Seq<usize>,
}

/// The points are kept in increasing order, so that a lookup is a binary search.
pub struct ConsistentHashRing {
    vnodes: u32,
    ring: Vec<(u64, usize)>,
    members: Vec<usize>,
}

impl View for ConsistentHashRing {
    type V = RingView;

    closed spec fn view(&self) -> RingView {
        RingView { vnodes: self.vnodes, points: map_of(self.ring@), members: self.members@ }
    }
}

impl Clone for ConsistentHashRing {
    fn clone(&self) -> (copy: Self)
        ensures
            copy@ == self@,
    {
        proof {
            use_type_invariant(self);
        }
        Self {
            vnodes: self.vnodes,
            ring: vstd::slice::slice_to_vec(self.ring.as_slice()),
            members: vstd::slice::slice_to_vec(self.members.as_slice()),
        }
    }
}

/// A list of members as the ring sees it.
pub open spec fn member_list(members: Seq<(usize, &str)>) -> Seq<(usize, Seq<char>)> {
    members.map_values(|m: (usize, &str)| (m.0, m.1@))
}

impl ConsistentHashRing {
    #[verifier::type_invariant]
    spec fn inv(self) -> bool {
        increasing(self.ring@)
    }

    pub fn new(vnodes: u32) -> (ring: Self)
        ensures
            ring@.vnodes == (if vnodes == 0 {
                1
            } else {
                vnodes
            }),
            ring@.points == Map::<u64, usize>::empty(),
            ring@.members == Seq::<usize>::empty(),
    {
        Self {
            vnodes: if vnodes == 0 {
                1
            } else {
                vnodes
            },
            ring: Vec::new(),
            members: Vec::new(),
        }
    }

    /// Rebuild the ring from the given members. `members` is a list of
    /// (identity, name) where identity is what `lookup` returns and name seeds
    /// the virtual node positions.
    pub fn rebuild(&mut self, members: &[(usize, &str)])
        ensures
            final(self)@.vnodes == old(self)@.vnodes,
            final(self)@.points == ring_of(member_list(members@), old(self)@.vnodes),
            final(self)@.members == members@.map_values(|m: (usize, &str)| m.0),
    {
        let vnodes: u32 = self.vnodes;
        let ghost list = member_list(members@);
        let mut points: Vec<(u64, usize)> = Vec::new();
        let mut ids: Vec<usize> = Vec::new();
        let mut i: usize = 0;
        while i < members.len()
            invariant
                i <= members@.len(),
                list == member_list(members@),
                ids@ =~= members@.take(i as int).map_values(|m: (usize, &str)| m.0),
                map_of(points@) == ring_of(list.take(i as int), vnodes),
            decreases members@.len() - i,
        {
            let id: usize = members[i].0;
            let name: &str = members[i].1;
            let base: u64 = fnv1a_64(name.as_bytes());
            let ghost ring = map_of(points@);
            let mut v: u32 = 0;
            while v < vnodes
                invariant
                    v <= vnodes,
                    base == text_hash(name@),
                    map_of(points@) == with_nodes(ring, name@, id, v as nat),
                decreases vnodes - v,
            {
                let point: u64 = mix64(base.wrapping_add(mix64(v as u64)));
                let ghost before = points@;
                points.push((point, id));
                assert(points@.drop_last() =~= before);
                v += 1;
            }
            ids.push(id);
            assert(list.take(i + 1).drop_last() =~= list.take(i as int));
            assert(list.take(i + 1).last() == (id, name@));
            i += 1;
        }
        assert(list.take(list.len() as int) =~= list);
        assert(members@.take(members@.len() as int) =~= members@);
        let count: usize = points.len();
        assert(points@.subrange(0, count as int) =~= points@);
        self.ring = sorted(&points, 0, count);
        self.members = ids;
    }

    pub fn is_empty(&self) -> (empty: bool)
        ensures
            empty == (self@.points == Map::<u64, usize>::empty()),
    {
        proof {
            lemma_map_of_dom(self.ring@);
            if self.ring@.len() > 0 {
                assert(map_of(self.ring@).contains_key(self.ring@[0].0));
            }
        }
        self.ring.len() == 0
    }

    pub fn members(&self) -> (members: &[usize])
        ensures
            members@ == self@.members,
    {
        self.members.as_slice()
    }

    /// The member responsible for `key`, walking clockwise from the key hash and
    /// wrapping to the first node past the end of the ring.
    pub fn lookup(&self, key: &str) -> (owner: Option<usize>)
        ensures
            owner == owner_of(self@.points, key@),
    {
        let n: usize = self.ring.len();
        let h: u64 = mix64(fnv1a_64(key.as_bytes()));
        proof {
            use_type_invariant(self);
            lemma_map_of_dom(self.ring@);
            lemma_map_of_increasing(self.ring@);
        }
        if n == 0 {
            return None;
        }
        let mut lo: usize = 0;
        let mut hi: usize = n;
        while lo < hi
            invariant
                n == self.ring@.len(),
                lo <= hi <= n,
                increasing(self.ring@),
                forall|i: int| 0 <= i < lo ==> (#[trigger] self.ring@[i]).0 < h,
                forall|i: int| hi <= i < n ==> h <= (#[trigger] self.ring@[i]).0,
            decreases hi - lo,
        {
            let mid: usize = lo + (hi - lo) / 2;
            if self.ring[mid].0 < h {
                lo = mid + 1;
            } else {
                hi = mid;
            }
        }
        if lo < n {
            let (p, id): (u64, usize) = self.ring[lo];
            proof {
                assert(self.ring@[lo as int].0 == p);
                assert forall|q: u64| #[trigger] self@.points.contains_key(q) && h <= q implies p
                    <= q by {
                    let i = choose|i: int| 0 <= i < n && (#[trigger] self.ring@[i]).0 == q;
                    assert(i >= lo);
                }
                lemma_next_point_decides(self@.points, h, p);
            }
            Some(id)
        } else {
            let (p, id): (u64, usize) = self.ring[0];
            proof {
                assert(self.ring@[0].0 == p);
                assert forall|q: u64| #[trigger] self@.points.contains_key(q) implies q < h && p
                    <= q by {
                    let i = choose|i: int| 0 <= i < n && (#[trigger] self.ring@[i]).0 == q;
                    assert(i >= 0);
                }
                lemma_wrapping_decides(self@.points, h, p);
            }
            Some(id)
        }
    }
}

/// `small` holds every point of `big` that does not belong to `gone`, under the
/// same identity, and no point beyond those of `big`.
spec fn lost_only(big: Map<u64, usize>, small: Map<u64, usize>, gone: usize) -> bool {
    &&& forall|p: u64| #[trigger] small.contains_key(p) ==> big.contains_key(p)
    &&& forall|p: u64| #[trigger]
        big.contains_key(p) && big[p] != gone ==> small.contains_key(p) && small[p] == big[p]
}

proof fn lemma_same_nodes_keep_loss(
    big: Map<u64, usize>,
    small: Map<u64, usize>,
    gone: usize,
    name: Seq<char>,
    id: usize,
    n: nat,
)
    requires
        lost_only(big, small, gone),
    ensures
        lost_only(with_nodes(big, name, id, n), with_nodes(small, name, id, n), gone),
    decreases n,
{
    if n > 0 {
        lemma_same_nodes_keep_loss(big, small, gone, name, id, (n - 1) as nat);
    }
}

proof fn lemma_extra_nodes_are_loss(
    big: Map<u64, usize>,
    small: Map<u64, usize>,
    name: Seq<char>,
    gone: usize,
    n: nat,
)
    requires
        lost_only(big, small, gone),
    ensures
        lost_only(with_nodes(big, name, gone, n), small, gone),
    decreases n,
{
    if n > 0 {
        lemma_extra_nodes_are_loss(big, small, name, gone, (n - 1) as nat);
    }
}

proof fn lemma_removal_is_loss(members: Seq<(usize, Seq<char>)>, vnodes: u32, i: int)
    requires
        0 <= i < members.len(),
    ensures
        lost_only(ring_of(members, vnodes), ring_of(members.remove(i), vnodes), members[i].0),
    decreases members.len(),
{
    let gone = members[i].0;
    let last = members.last();
    if i == members.len() - 1 {
        assert(members.remove(i) =~= members.drop_last());
        let rest = ring_of(members.drop_last(), vnodes);
        lemma_extra_nodes_are_loss(rest, rest, last.1, gone, vnodes as nat);
    } else {
        lemma_removal_is_loss(members.drop_last(), vnodes, i);
        assert(members.remove(i).drop_last() =~= members.drop_last().remove(i));
        assert(members.remove(i).last() == last);
        lemma_same_nodes_keep_loss(
            ring_of(members.drop_last(), vnodes),
            ring_of(members.drop_last().remove(i), vnodes),
            gone,
            last.1,
            last.0,
            vnodes as nat,
        );
    }
}

proof fn lemma_loss_moves_only_the_lost(
    big: Map<u64, usize>,
    small: Map<u64, usize>,
    gone: usize,
    h: u64,
)
    requires
        lost_only(big, small, gone),
        owner_at(big, h) is Some,
        owner_at(big, h) != Some(gone),
    ensures
        owner_at(small, h) == owner_at(big, h),
{
    if exists|p: u64| is_next_point(big, h, p) {
        let p = choose|p: u64| is_next_point(big, h, p);
        assert(big.contains_key(p));
        assert(is_next_point(small, h, p)) by {
            assert(small.contains_key(p));
        }
        lemma_next_point_decides(small, h, p);
    } else {
        let p = choose|p: u64| is_next_point(big, 0, p);
        assert(is_next_point(big, 0, p));
        assert(big.contains_key(p));
        assert(small.contains_key(p));
        assert(is_next_point(small, 0, p));
        lemma_no_next_point(big, h);
        assert forall|q: u64| #[trigger] small.contains_key(q) implies q < h by {
            assert(big.contains_key(q));
        }
        lemma_wrapping_decides(small, h, p);
    }
}

/// A ring without a point at or after `h` has all its points before `h`.
proof fn lemma_no_next_point(ring: Map<u64, usize>, h: u64)
    requires
        !exists|p: u64| is_next_point(ring, h, p),
    ensures
        forall|q: u64| #[trigger] ring.contains_key(q) ==> q < h,
{
    assert forall|q: u64| #[trigger] ring.contains_key(q) implies q < h by {
        if q >= h {
            lemma_least_point_exists(ring, h, q);
        }
    }
}

proof fn lemma_least_point_exists(ring: Map<u64, usize>, h: u64, q: u64)
    requires
        ring.contains_key(q),
        h <= q,
    ensures
        exists|p: u64| is_next_point(ring, h, p),
    decreases q - h,
{
    if exists|r: u64| #[trigger] ring.contains_key(r) && h <= r < q {
        let r = choose|r: u64| #[trigger] ring.contains_key(r) && h <= r < q;
        lemma_least_point_exists(ring, h, r);
    } else {
        assert(is_next_point(ring, h, q));
    }
}

/// A ring with a member on it has an owner for every key.
pub proof fn law_every_key_has_an_owner(
    members: Seq<(usize, Seq<char>)>,
    vnodes: u32,
    key: Seq<char>,
)
    requires
        members.len() > 0,
        vnodes > 0,
    ensures
        owner_of(ring_of(members, vnodes), key) is Some,
        exists|i: int|
            0 <= i < members.len() && owner_of(ring_of(members, vnodes), key) == Some(
                (#[trigger] members[i]).0,
            ),
{
    let ring = ring_of(members, vnodes);
    let rest = ring_of(members.drop_last(), vnodes);
    let h = key_point(key);
    let q = node_point(members.last().1, (vnodes - 1) as u32);
    assert(ring.contains_key(q));
    lemma_least_point_exists(ring, 0, q);
    lemma_points_belong_to_members(members, vnodes);
    let p = if exists|p: u64| is_next_point(ring, h, p) {
        choose|p: u64| is_next_point(ring, h, p)
    } else {
        choose|p: u64| is_next_point(ring, 0, p)
    };
    assert(ring.contains_key(p));
    let i = choose|i: int| 0 <= i < members.len() && (#[trigger] members[i]).0 == ring[p];
    assert(owner_of(ring, key) == Some(members[i].0));
}

proof fn lemma_nodes_belong(ring: Map<u64, usize>, name: Seq<char>, id: usize, n: nat)
    ensures
        forall|p: u64| #[trigger]
            with_nodes(ring, name, id, n).contains_key(p) ==> with_nodes(ring, name, id, n)[p] == id
                || (ring.contains_key(p) && ring[p] == with_nodes(ring, name, id, n)[p]),
    decreases n,
{
    if n > 0 {
        lemma_nodes_belong(ring, name, id, (n - 1) as nat);
        let inner = with_nodes(ring, name, id, (n - 1) as nat);
        assert forall|p: u64| #[trigger] with_nodes(ring, name, id, n).contains_key(p) implies
            with_nodes(ring, name, id, n)[p] == id || (ring.contains_key(p) && ring[p]
            == with_nodes(ring, name, id, n)[p]) by {
            if p != node_point(name, (n - 1) as u32) {
                assert(inner.contains_key(p));
            }
        }
    }
}

proof fn lemma_points_belong_to_members(members: Seq<(usize, Seq<char>)>, vnodes: u32)
    ensures
        forall|p: u64| #[trigger]
            ring_of(members, vnodes).contains_key(p) ==> exists|i: int|
                0 <= i < members.len() && (#[trigger] members[i]).0 == ring_of(members, vnodes)[p],
    decreases members.len(),
{
    if members.len() > 0 {
        let front = members.drop_last();
        let rest = ring_of(front, vnodes);
        let ring = ring_of(members, vnodes);
        lemma_points_belong_to_members(front, vnodes);
        lemma_nodes_belong(rest, members.last().1, members.last().0, vnodes as nat);
        assert forall|p: u64| #[trigger] ring.contains_key(p) implies exists|i: int|
            0 <= i < members.len() && (#[trigger] members[i]).0 == ring[p] by {
            if ring[p] == members.last().0 {
                assert(members[members.len() - 1].0 == ring[p]);
            } else {
                assert(rest.contains_key(p));
                let i = choose|i: int| 0 <= i < front.len() && (#[trigger] front[i]).0 == rest[p];
                assert(members[i].0 == ring[p]);
            }
        }
    }
}

/// Taking a member away moves only the keys it was responsible for: every other
/// key stays where it was.
pub proof fn law_removal_moves_only_its_own_keys(
    members: Seq<(usize, Seq<char>)>,
    vnodes: u32,
    i: int,
    key: Seq<char>,
)
    requires
        0 <= i < members.len(),
        vnodes > 0,
        owner_of(ring_of(members, vnodes), key) != Some(members[i].0),
    ensures
        owner_of(ring_of(members.remove(i), vnodes), key) == owner_of(
            ring_of(members, vnodes),
            key,
        ),
{
    law_every_key_has_an_owner(members, vnodes, key);
    lemma_removal_is_loss(members, vnodes, i);
    lemma_loss_moves_only_the_lost(
        ring_of(members, vnodes),
        ring_of(members.remove(i), vnodes),
        members[i].0,
        key_point(key),
    );
}

/// A key that moves when a member joins, at whatever place in the list, moves
/// onto the newcomer.
pub proof fn law_join_moves_keys_only_to_newcomer(
    members: Seq<(usize, Seq<char>)>,
    vnodes: u32,
    i: int,
    newcomer: (usize, Seq<char>),
    key: Seq<char>,
)
    requires
        0 <= i <= members.len(),
        vnodes > 0,
        owner_of(ring_of(members.insert(i, newcomer), vnodes), key) != owner_of(
            ring_of(members, vnodes),
            key,
        ),
    ensures
        owner_of(ring_of(members.insert(i, newcomer), vnodes), key) == Some(newcomer.0),
{
    let grown = members.insert(i, newcomer);
    assert(grown.remove(i) =~= members);
    if owner_of(ring_of(grown, vnodes), key) != Some(newcomer.0) {
        law_removal_moves_only_its_own_keys(grown, vnodes, i, key);
    }
}

/// How far it is from `h` to `p` clockwise, around the end of the ring if need be.
pub open spec fn clockwise(h: u64, p: u64) -> int {
    if p >= h {
        p - h
    } else {
        p - h + 0x1_0000_0000_0000_0000
    }
}

/// A key belongs to the point that is next to it clockwise, around the end of the ring
/// if need be. It belongs to nobody exactly when the ring has no points.
pub proof fn law_key_belongs_to_next_point_clockwise(ring: Map<u64, usize>, key: Seq<char>)
    ensures
        match owner_of(ring, key) {
            Some(id) => exists|p: u64|
                {
                    &&& #[trigger] ring.contains_key(p)
                    &&& ring[p] == id
                    &&& forall|q: u64| #[trigger]
                        ring.contains_key(q) ==> clockwise(key_point(key), p) <= clockwise(
                            key_point(key),
                            q,
                        )
                },
            None => forall|q: u64| !#[trigger] ring.contains_key(q),
        },
{
    let h = key_point(key);
    if exists|p: u64| is_next_point(ring, h, p) {
        let p = choose|p: u64| is_next_point(ring, h, p);
        assert(is_next_point(ring, h, p));
        assert(ring.contains_key(p));
    } else {
        lemma_no_next_point(ring, h);
        if exists|p: u64| is_next_point(ring, 0, p) {
            let p = choose|p: u64| is_next_point(ring, 0, p);
            assert(is_next_point(ring, 0, p));
            assert(ring.contains_key(p));
        } else {
            lemma_no_next_point(ring, 0);
            assert forall|q: u64| !#[trigger] ring.contains_key(q) by {
                if ring.contains_key(q) {
                    assert(q < 0);
                }
            }
        }
    }
}

/// The member stands at the point with one of its first `n` virtual nodes.
pub open spec fn stands_at(name: Seq<char>, n: nat, p: u64) -> bool {
    exists|v: u32| v < n && #[trigger] node_point(name, v) == p
}

proof fn lemma_with_nodes(ring: Map<u64, usize>, name: Seq<char>, id: usize, n: nat)
    requires
        n <= u32::MAX,
    ensures
        forall|p: u64|
            #![trigger with_nodes(ring, name, id, n).contains_key(p)]
            #![trigger stands_at(name, n, p)]
            stands_at(name, n, p) ==> with_nodes(ring, name, id, n).contains_key(p) && with_nodes(
                ring,
                name,
                id,
                n,
            )[p] == id,
        forall|p: u64|
            #![trigger with_nodes(ring, name, id, n).contains_key(p)]
            #![trigger stands_at(name, n, p)]
            !stands_at(name, n, p) ==> (with_nodes(ring, name, id, n).contains_key(p)
                <==> ring.contains_key(p)) && with_nodes(ring, name, id, n)[p] == ring[p],
    decreases n,
{
    if n > 0 {
        let less = (n - 1) as nat;
        lemma_with_nodes(ring, name, id, less);
        let inner = with_nodes(ring, name, id, less);
        let outer = with_nodes(ring, name, id, n);
        let at = node_point(name, less as u32);
        assert forall|p: u64| stands_at(name, n, p) <==> #[trigger] stands_at(name, less, p) || p
            == at by {
            if stands_at(name, n, p) {
                let v = choose|v: u32| v < n && #[trigger] node_point(name, v) == p;
                if v < less {
                    assert(stands_at(name, less, p));
                } else {
                    assert(v == less as u32);
                }
            }
            if stands_at(name, less, p) {
                let v = choose|v: u32| v < less && #[trigger] node_point(name, v) == p;
                assert(v < n && node_point(name, v) == p);
            }
            if p == at {
                assert((less as u32) < n && node_point(name, less as u32) == p);
            }
        }
        assert forall|p: u64| true implies {
            &&& #[trigger] stands_at(name, n, p) ==> outer.contains_key(p) && outer[p] == id
            &&& !stands_at(name, n, p) ==> (outer.contains_key(p) <==> ring.contains_key(p))
                && outer[p] == ring[p]
        } by {
            assert(stands_at(name, n, p) <==> stands_at(name, less, p) || p == at);
            assert(outer == inner.insert(at, id));
        }
    }
}

/// The points of the ring are those where its members stand with their virtual nodes,
/// as many of each as configured. A point where several stand belongs to the last of
/// them in the list.
pub proof fn law_ring_holds_every_virtual_node(
    members: Seq<(usize, Seq<char>)>,
    vnodes: u32,
    p: u64,
)
    ensures
        ring_of(members, vnodes).contains_key(p) <==> exists|i: int|
            0 <= i < members.len() && stands_at((#[trigger] members[i]).1, vnodes as nat, p),
        ring_of(members, vnodes).contains_key(p) ==> exists|i: int|
            {
                &&& 0 <= i < members.len()
                &&& stands_at((#[trigger] members[i]).1, vnodes as nat, p)
                &&& ring_of(members, vnodes)[p] == members[i].0
                &&& forall|j: int|
                    i < j < members.len() ==> !stands_at(
                        (#[trigger] members[j]).1,
                        vnodes as nat,
                        p,
                    )
            },
    decreases members.len(),
{
    let n = vnodes as nat;
    if members.len() > 0 {
        let front = members.drop_last();
        let last = members.len() - 1;
        let rest = ring_of(front, vnodes);
        let ring = ring_of(members, vnodes);
        law_ring_holds_every_virtual_node(front, vnodes, p);
        lemma_with_nodes(rest, members.last().1, members.last().0, n);
        assert(members.last() == members[last]);
        if stands_at(members[last].1, n, p) {
            assert(ring.contains_key(p) && ring[p] == members[last].0);
        } else {
            assert(ring.contains_key(p) <==> rest.contains_key(p));
            assert(ring[p] == rest[p]);
            if rest.contains_key(p) {
                let i = choose|i: int|
                    {
                        &&& 0 <= i < front.len()
                        &&& stands_at((#[trigger] front[i]).1, n, p)
                        &&& rest[p] == front[i].0
                        &&& forall|j: int|
                            i < j < front.len() ==> !stands_at((#[trigger] front[j]).1, n, p)
                    };
                assert(front[i] == members[i]);
                assert forall|j: int| i < j < members.len() implies !stands_at(
                    (#[trigger] members[j]).1,
                    n,
                    p,
                ) by {
                    if j < last {
                        assert(front[j] == members[j]);
                    }
                }
            } else if exists|i: int|
                0 <= i < members.len() && stands_at((#[trigger] members[i]).1, n, p) {
                let i = choose|i: int|
                    0 <= i < members.len() && stands_at((#[trigger] members[i]).1, n, p);
                assert(front[i] == members[i]);
            }
        }
    }
}

/// A key stands on the ring where its mixed FNV-1a hash puts it, and virtual node `v` of
/// a member where the hash of its name, moved on by the mixed number of the node, is
/// mixed to. FNV-1a takes in one byte after the other.
pub proof fn law_positions_are_mixed_hashes(text: Seq<char>, v: u32, bytes: Seq<u8>, byte: u8)
    ensures
        key_point(text) == mixed(fnv1a(vstd::utf8::encode_utf8(text))),
        node_point(text, v) == mixed(
            fnv1a(vstd::utf8::encode_utf8(text)).wrapping_add(mixed(v as u64)),
        ),
        fnv1a(Seq::empty()) == 0xcbf2_9ce4_8422_2325,
        fnv1a(bytes.push(byte)) == (fnv1a(bytes) ^ (byte as u64)).wrapping_mul(
            0x0000_0100_0000_01b3,
        ),
{
    assert(bytes.push(byte).drop_last() =~= bytes);
}

/// Members are listed in order, identity and name each as it is.
pub proof fn law_members_are_listed_in_order(members: Seq<(usize, &str)>, i: int)
    requires
        0 <= i < members.len(),
    ensures
        member_list(members).len() == members.len(),
        member_list(members)[i].0 == members[i].0,
        member_list(members)[i].1 == members[i].1@,
{
}

} // verus!

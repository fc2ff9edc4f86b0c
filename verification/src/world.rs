//! The in-memory world model: blocks, signs and lights stored in 32x32
//! vertical sectors (chunks), keyed by `(p, q) = (floor(x/32), floor(z/32))`,
//! together with the queue of mutations awaiting durable storage.
//!
//! Local block coordinates carry a `+1` offset, so authoritative territory
//! spans locals `1..=32` and locals `0` and `33` hold overlap copies from
//! the neighbouring chunks.

use vstd::prelude::*;

verus! {

/// The chunk that a global coordinate falls in on one axis, as a
/// mathematical integer: the floor of `n / 32`.
pub open spec fn spec_chunked(n: int) -> int {
    n / 32
}

/// Return the chunk that a block falls in on one axis.
///
/// True floor division: negative coordinates round toward negative
/// infinity, not toward zero.
pub fn chunked(n: i32) -> (r: i32)
    ensures
        r == spec_chunked(n as int),
{
    if n >= 0 {
        n / 32
    } else {
        // For negative n, Rust's `/` truncates toward zero; adjust to floor.
        let d: i32 = n / 32;
        if n % 32 == 0 {
            d
        } else {
            d - 1
        }
    }
}

/// The floor property that defines `spec_chunked`: each coordinate lies
/// inside the 32-wide span of its chunk.
pub proof fn lemma_chunked_floor(x: int)
    ensures
        32 * spec_chunked(x) <= x < 32 * (spec_chunked(x) + 1),
{
    assert(32 * (x / 32) + x % 32 == x) by {
        vstd::arithmetic::div_mod::lemma_fundamental_div_mod(x, 32);
    }
}

/// Stepping one block left of `x` changes chunk exactly at the chunk's
/// lower edge, one block right exactly at its upper edge.
pub proof fn lemma_chunked_step(x: int)
    ensures
        spec_chunked(x - 1) == if x == 32 * spec_chunked(x) {
            spec_chunked(x) - 1
        } else {
            spec_chunked(x)
        },
        spec_chunked(x + 1) == if x == 32 * spec_chunked(x) + 31 {
            spec_chunked(x) + 1
        } else {
            spec_chunked(x)
        },
{
    lemma_chunked_floor(x);
    lemma_chunked_floor(x - 1);
    lemma_chunked_floor(x + 1);
    let p = spec_chunked(x);
    if x == 32 * p {
        assert(32 * (p - 1) <= x - 1 < 32 * p);
        assert(spec_chunked(x - 1) == p - 1) by {
            lemma_chunked_floor(x - 1);
            let d = spec_chunked(x - 1);
            assert(32 * d <= x - 1 < 32 * (d + 1));
            vstd::arithmetic::mul::lemma_mul_strict_inequality(d, p, 32);
            vstd::arithmetic::mul::lemma_mul_strict_inequality(p - 2, d, 32);
        }
    } else {
        assert(spec_chunked(x - 1) == p) by {
            let d = spec_chunked(x - 1);
            assert(32 * d <= x - 1 < 32 * (d + 1));
            vstd::arithmetic::mul::lemma_mul_strict_inequality(d - 1, p, 32);
            vstd::arithmetic::mul::lemma_mul_strict_inequality(p - 1, d, 32);
        }
    }
    if x == 32 * p + 31 {
        assert(spec_chunked(x + 1) == p + 1) by {
            let d = spec_chunked(x + 1);
            assert(32 * d <= x + 1 < 32 * (d + 1));
            vstd::arithmetic::mul::lemma_mul_strict_inequality(p, d, 32);
            vstd::arithmetic::mul::lemma_mul_strict_inequality(d, p + 2, 32);
        }
    } else {
        assert(spec_chunked(x + 1) == p) by {
            let d = spec_chunked(x + 1);
            assert(32 * d <= x + 1 < 32 * (d + 1));
            vstd::arithmetic::mul::lemma_mul_strict_inequality(d - 1, p, 32);
            vstd::arithmetic::mul::lemma_mul_strict_inequality(p - 1, d, 32);
        }
    }
}

/// Type of block kinds. Non-negative kinds are authoritative placements;
/// a negative kind is an overlap copy of a block from an adjacent chunk;
/// zero is air.
#[derive(Clone, Copy, Debug, PartialEq, Eq, Structural)]
pub struct Block(pub i8);

impl Block {
    /// Returns whether the block is empty air.
    pub fn is_air(&self) -> (r: bool)
        ensures
            r == (self.0 == 0),
    {
        self.0 == 0
    }
}

/// Type of sign texts.
#[derive(Clone, Debug)]
pub struct Sign(pub String);

impl View for Sign {
    type V = Seq<char>;

    open spec fn view(&self) -> Seq<char> {
        self.0@
    }
}

/// Type of light levels.
#[derive(Clone, Copy, Debug, PartialEq, Eq, Structural)]
pub struct Light(pub u8);

/// No two entries of the association list share a key.
pub open spec fn unique_keys<K, V>(s: Seq<(K, V)>) -> bool {
    forall|i: int, j: int| 0 <= i < j < s.len() ==> (#[trigger] s[i]).0 != (#[trigger] s[j]).0
}

/// Look a key up in an association list; later entries win.
pub open spec fn assoc_get<K, V>(s: Seq<(K, V)>, k: K) -> Option<V>
    decreases s.len(),
{
    if s.len() == 0 {
        None
    } else if s.last().0 == k {
        Some(s.last().1)
    } else {
        assoc_get(s.drop_last(), k)
    }
}

/// In a list with unique keys, the entry found at any position is the
/// lookup result.
pub proof fn lemma_assoc_get_at<K, V>(s: Seq<(K, V)>, i: int)
    requires
        unique_keys(s),
        0 <= i < s.len(),
    ensures
        assoc_get(s, s[i].0) == Some(s[i].1),
    decreases s.len(),
{
    if i == s.len() - 1 {
        assert(s.last() == s[i]);
    } else {
        assert(s.last().0 != s[i].0);
        assert(unique_keys(s.drop_last())) by {
            assert(forall|a: int, b: int|
                0 <= a < b < s.drop_last().len() ==> s.drop_last()[a] == s[a]
                    && s.drop_last()[b] == s[b]);
        }
        assert(s.drop_last()[i] == s[i]);
        lemma_assoc_get_at(s.drop_last(), i);
    }
}

/// A key that no entry carries is not found.
pub proof fn lemma_assoc_get_absent<K, V>(s: Seq<(K, V)>, k: K)
    requires
        forall|i: int| 0 <= i < s.len() ==> (#[trigger] s[i]).0 != k,
    ensures
        assoc_get(s, k) is None,
    decreases s.len(),
{
    if s.len() > 0 {
        assert(s.last() == s[s.len() - 1]);
        assert(forall|i: int|
            0 <= i < s.drop_last().len() ==> s.drop_last()[i] == s[i]);
        lemma_assoc_get_absent(s.drop_last(), k);
    }
}

/// Appending an entry makes its key found and leaves other keys as they
/// were.
pub proof fn lemma_assoc_get_push<K, V>(s: Seq<(K, V)>, k: K, v: V, k2: K)
    ensures
        assoc_get(s.push((k, v)), k2) == if k2 == k {
            Some(v)
        } else {
            assoc_get(s, k2)
        },
{
    let t = s.push((k, v));
    assert(t.last() == (k, v));
    assert(t.drop_last() =~= s);
}

/// Overwriting the value at one position changes that entry's key alone.
pub proof fn lemma_assoc_get_update<K, V>(s: Seq<(K, V)>, i: int, v: V, k2: K)
    requires
        unique_keys(s),
        0 <= i < s.len(),
    ensures
        assoc_get(s.update(i, (s[i].0, v)), k2) == if k2 == s[i].0 {
            Some(v)
        } else {
            assoc_get(s, k2)
        },
    decreases s.len(),
{
    let t = s.update(i, (s[i].0, v));
    assert(t.len() == s.len());
    if i == s.len() - 1 {
        assert(t.last() == (s[i].0, v));
        assert(t.drop_last() =~= s.drop_last());
        if k2 != s[i].0 {
            assert(s.last().0 == s[i].0);
        }
    } else {
        assert(t.last() == s.last());
        assert(t.drop_last() =~= s.drop_last().update(i, (s[i].0, v)));
        assert(unique_keys(s.drop_last())) by {
            assert(forall|a: int, b: int|
                0 <= a < b < s.drop_last().len() ==> s.drop_last()[a] == s[a]
                    && s.drop_last()[b] == s[b]);
        }
        assert(s.drop_last()[i] == s[i]);
        lemma_assoc_get_update(s.drop_last(), i, v, k2);
        if k2 == s.last().0 {
            assert(s.last().0 != s[i].0);
        }
    }
}

/// Removing one entry makes its key absent and leaves other keys as they
/// were.
pub proof fn lemma_assoc_get_remove<K, V>(s: Seq<(K, V)>, i: int, k2: K)
    requires
        unique_keys(s),
        0 <= i < s.len(),
    ensures
        unique_keys(s.remove(i)),
        assoc_get(s.remove(i), k2) == if k2 == s[i].0 {
            None::<V>
        } else {
            assoc_get(s, k2)
        },
    decreases s.len(),
{
    let t = s.remove(i);
    assert(forall|a: int| 0 <= a < i ==> t[a] == s[a]);
    assert(forall|a: int| i <= a < t.len() ==> t[a] == s[a + 1]);
    assert(unique_keys(t));
    if i == s.len() - 1 {
        assert(t =~= s.drop_last());
        if k2 == s[i].0 {
            assert(forall|a: int| 0 <= a < t.len() ==> (#[trigger] t[a]).0 != k2);
            lemma_assoc_get_absent(t, k2);
        } else {
            assert(s.last().0 == s[i].0);
        }
    } else {
        assert(t.last() == s.last());
        assert(t.drop_last() =~= s.drop_last().remove(i));
        let d = s.drop_last();
        assert(forall|a: int| 0 <= a < d.len() ==> d[a] == s[a]);
        assert(unique_keys(d));
        assert(d[i] == s[i]);
        lemma_assoc_get_remove(d, i, k2);
        if k2 == s.last().0 {
            assert(s.last().0 != s[i].0);
        }
    }
}

/// A found key has an entry at some position.
pub proof fn lemma_assoc_get_some_index<K, V>(s: Seq<(K, V)>, k: K)
    requires
        assoc_get(s, k) is Some,
    ensures
        exists|i: int|
            0 <= i < s.len() && (#[trigger] s[i]).0 == k && s[i].1 == assoc_get(s, k).unwrap(),
    decreases s.len(),
{
    if s.last().0 == k {
        assert(s[s.len() - 1] == s.last());
    } else {
        lemma_assoc_get_some_index(s.drop_last(), k);
        let i = choose|i: int|
            0 <= i < s.drop_last().len() && (#[trigger] s.drop_last()[i]).0 == k
                && s.drop_last()[i].1 == assoc_get(s.drop_last(), k).unwrap();
        assert(s[i] == s.drop_last()[i]);
    }
}

/// The raw sign entries of a chunk with every entry anchored at
/// `(x, y, z)` removed, order kept.
pub open spec fn prune_signs(
    s: Seq<((i32, i32, i32, u8), Sign)>,
    x: i32,
    y: i32,
    z: i32,
) -> Seq<((i32, i32, i32, u8), Sign)>
    decreases s.len(),
{
    if s.len() == 0 {
        s
    } else if s.last().0.0 == x && s.last().0.1 == y && s.last().0.2 == z {
        prune_signs(s.drop_last(), x, y, z)
    } else {
        prune_signs(s.drop_last(), x, y, z).push(s.last())
    }
}

/// The plain-value sign listing with every entry anchored at `(x, y, z)`
/// removed, order kept.
pub open spec fn prune_sign_listing(
    s: Seq<((i32, i32, i32, u8), Seq<char>)>,
    x: i32,
    y: i32,
    z: i32,
) -> Seq<((i32, i32, i32, u8), Seq<char>)>
    decreases s.len(),
{
    if s.len() == 0 {
        s
    } else if s.last().0.0 == x && s.last().0.1 == y && s.last().0.2 == z {
        prune_sign_listing(s.drop_last(), x, y, z)
    } else {
        prune_sign_listing(s.drop_last(), x, y, z).push(s.last())
    }
}

/// Pruning commutes with taking the entries' plain values.
proof fn lemma_prune_map(s: Seq<((i32, i32, i32, u8), Sign)>, x: i32, y: i32, z: i32)
    ensures
        prune_signs(s, x, y, z).map_values(|e: ((i32, i32, i32, u8), Sign)| (e.0, e.1@))
            == prune_sign_listing(
            s.map_values(|e: ((i32, i32, i32, u8), Sign)| (e.0, e.1@)),
            x,
            y,
            z,
        ),
    decreases s.len(),
{
    let f = |e: ((i32, i32, i32, u8), Sign)| (e.0, e.1@);
    if s.len() == 0 {
        assert(prune_signs(s, x, y, z).map_values(f) =~= prune_sign_listing(
            s.map_values(f),
            x,
            y,
            z,
        ));
    } else {
        lemma_prune_map(s.drop_last(), x, y, z);
        let m = s.map_values(f);
        assert(m.drop_last() =~= s.drop_last().map_values(f));
        assert(m.last() == f(s.last()));
        if s.last().0.0 == x && s.last().0.1 == y && s.last().0.2 == z {
        } else {
            assert(prune_signs(s, x, y, z).map_values(f) =~= prune_signs(
                s.drop_last(),
                x,
                y,
                z,
            ).map_values(f).push(f(s.last())));
        }
    }
}

/// Removing the first anchored entry does not change the pruned list.
proof fn lemma_prune_remove_first(
    s: Seq<((i32, i32, i32, u8), Sign)>,
    i: int,
    x: i32,
    y: i32,
    z: i32,
)
    requires
        0 <= i < s.len(),
        s[i].0.0 == x && s[i].0.1 == y && s[i].0.2 == z,
        forall|j: int|
            0 <= j < i ==> !((#[trigger] s[j]).0.0 == x && s[j].0.1 == y && s[j].0.2 == z),
    ensures
        prune_signs(s.remove(i), x, y, z) == prune_signs(s, x, y, z),
    decreases s.len(),
{
    let r = s.remove(i);
    if i == s.len() - 1 {
        assert(r =~= s.drop_last());
        assert(s.last() == s[i]);
    } else {
        assert(r.last() == s.last());
        assert(r.drop_last() =~= s.drop_last().remove(i));
        assert(forall|j: int| 0 <= j < s.drop_last().len() ==> s.drop_last()[j] == s[j]);
        lemma_prune_remove_first(s.drop_last(), i, x, y, z);
    }
}

/// A list with no anchored entry prunes to itself.
proof fn lemma_prune_signs_id(s: Seq<((i32, i32, i32, u8), Sign)>, x: i32, y: i32, z: i32)
    requires
        forall|j: int|
            0 <= j < s.len() ==> !((#[trigger] s[j]).0.0 == x && s[j].0.1 == y && s[j].0.2 == z),
    ensures
        prune_signs(s, x, y, z) == s,
    decreases s.len(),
{
    if s.len() > 0 {
        assert(s.last() == s[s.len() - 1]);
        assert(forall|j: int| 0 <= j < s.drop_last().len() ==> s.drop_last()[j] == s[j]);
        lemma_prune_signs_id(s.drop_last(), x, y, z);
        assert(prune_signs(s, x, y, z) =~= s);
    }
}

/// No pruned entry is anchored at the pruned position.
proof fn lemma_prune_listing_no_anchor(
    s: Seq<((i32, i32, i32, u8), Seq<char>)>,
    x: i32,
    y: i32,
    z: i32,
)
    ensures
        forall|j: int|
            0 <= j < prune_sign_listing(s, x, y, z).len() ==> !((#[trigger] prune_sign_listing(
                s,
                x,
                y,
                z,
            )[j]).0.0 == x && prune_sign_listing(s, x, y, z)[j].0.1 == y && prune_sign_listing(
                s,
                x,
                y,
                z,
            )[j].0.2 == z),
    decreases s.len(),
{
    if s.len() > 0 {
        lemma_prune_listing_no_anchor(s.drop_last(), x, y, z);
        let p = prune_sign_listing(s, x, y, z);
        let d = prune_sign_listing(s.drop_last(), x, y, z);
        if !(s.last().0.0 == x && s.last().0.1 == y && s.last().0.2 == z) {
            assert(forall|j: int| 0 <= j < d.len() ==> p[j] == d[j]);
            assert(p[p.len() - 1] == s.last());
        }
    }
}

/// A listing with no anchored entry prunes to itself.
proof fn lemma_prune_listing_id(
    s: Seq<((i32, i32, i32, u8), Seq<char>)>,
    x: i32,
    y: i32,
    z: i32,
)
    requires
        forall|j: int|
            0 <= j < s.len() ==> !((#[trigger] s[j]).0.0 == x && s[j].0.1 == y && s[j].0.2 == z),
    ensures
        prune_sign_listing(s, x, y, z) == s,
    decreases s.len(),
{
    if s.len() > 0 {
        assert(s.last() == s[s.len() - 1]);
        assert(forall|j: int| 0 <= j < s.drop_last().len() ==> s.drop_last()[j] == s[j]);
        lemma_prune_listing_id(s.drop_last(), x, y, z);
        assert(prune_sign_listing(s, x, y, z) =~= s);
    }
}

/// Pruning twice is pruning once.
proof fn lemma_prune_listing_idempotent(
    s: Seq<((i32, i32, i32, u8), Seq<char>)>,
    x: i32,
    y: i32,
    z: i32,
)
    ensures
        prune_sign_listing(prune_sign_listing(s, x, y, z), x, y, z) == prune_sign_listing(
            s,
            x,
            y,
            z,
        ),
{
    lemma_prune_listing_no_anchor(s, x, y, z);
    lemma_prune_listing_id(prune_sign_listing(s, x, y, z), x, y, z);
}

/// A sector of the world: blocks and lights under local coordinates,
/// signs under their global coordinates and face.
pub struct Chunk {
    blocks: Vec<((u8, u8, u8), Block)>,
    signs: Vec<((i32, i32, i32, u8), Sign)>,
    lights: Vec<((u8, u8, u8), Light)>,
}

impl Chunk {
    /// Each of the three association lists has unique keys.
    pub closed spec fn wf(&self) -> bool {
        &&& unique_keys(self.blocks@)
        &&& unique_keys(self.signs@)
        &&& unique_keys(self.lights@)
    }

    /// The block kind stored under a local position, if any.
    pub closed spec fn block_at(&self, l: (u8, u8, u8)) -> Option<i8> {
        match assoc_get(self.blocks@, l) {
            Some(b) => Some(b.0),
            None => None,
        }
    }

    /// The sign text stored under a global position and face, if any.
    pub closed spec fn sign_at(&self, k: (i32, i32, i32, u8)) -> Option<Seq<char>> {
        match assoc_get(self.signs@, k) {
            Some(sg) => Some(sg@),
            None => None,
        }
    }

    /// The light level stored under a local position, if any.
    pub closed spec fn light_at(&self, l: (u8, u8, u8)) -> Option<u8> {
        match assoc_get(self.lights@, l) {
            Some(lt) => Some(lt.0),
            None => None,
        }
    }

    /// The stored blocks as an entry sequence of plain values.
    pub closed spec fn blocks_seq(&self) -> Seq<((u8, u8, u8), i8)> {
        self.blocks@.map_values(|e: ((u8, u8, u8), Block)| (e.0, e.1.0))
    }

    /// The stored signs as an entry sequence of plain values.
    pub closed spec fn signs_seq(&self) -> Seq<((i32, i32, i32, u8), Seq<char>)> {
        self.signs@.map_values(|e: ((i32, i32, i32, u8), Sign)| (e.0, e.1@))
    }

    fn new() -> (c: Chunk)
        ensures
            c.wf(),
            c.blocks@.len() == 0,
            c.signs@.len() == 0,
            c.lights@.len() == 0,
            forall|l: (u8, u8, u8)| c.block_at(l) is None,
            forall|k: (i32, i32, i32, u8)| c.sign_at(k) is None,
            forall|l: (u8, u8, u8)| c.light_at(l) is None,
    {
        Chunk { blocks: Vec::new(), signs: Vec::new(), lights: Vec::new() }
    }

    /// Find the index of a block entry with this local position.
    fn find_block(&self, l: (u8, u8, u8)) -> (r: Option<usize>)
        ensures
            match r {
                Some(i) => i < self.blocks@.len() && self.blocks@[i as int].0 == l,
                None => forall|i: int|
                    0 <= i < self.blocks@.len() ==> (#[trigger] self.blocks@[i]).0 != l,
            },
    {
        let mut i: usize = 0;
        while i < self.blocks.len()
            invariant
                0 <= i <= self.blocks@.len(),
                forall|j: int| 0 <= j < i ==> (#[trigger] self.blocks@[j]).0 != l,
            decreases self.blocks@.len() - i,
        {
            let e = &self.blocks[i];
            if e.0.0 == l.0 && e.0.1 == l.1 && e.0.2 == l.2 {
                return Some(i);
            }
            i += 1;
        }
        None
    }

    /// Upsert a block.
    fn set_block(&mut self, l: (u8, u8, u8), b: Block)
        requires
            old(self).wf(),
        ensures
            final(self).wf(),
            forall|l2: (u8, u8, u8)| #[trigger]
                final(self).block_at(l2) == if l2 == l {
                    Some(b.0)
                } else {
                    old(self).block_at(l2)
                },
            forall|j: int|
                0 <= j < final(self).blocks@.len() ==> ((#[trigger] final(self).blocks@[j]).0 == l
                    || (exists|a: int|
                    0 <= a < old(self).blocks@.len() && (#[trigger] old(self).blocks@[a]).0
                        == final(self).blocks@[j].0)),
            final(self).signs@ == old(self).signs@,
            final(self).lights@ == old(self).lights@,
    {
        match self.find_block(l) {
            Some(i) => {
                proof {
                    assert(self.blocks@[i as int].0 == l);
                }
                let ghost olds = self.blocks@;
                self.blocks[i] = (l, b);
                proof {
                    assert(self.blocks@ =~= olds.update(i as int, (l, b)));
                    assert forall|l2: (u8, u8, u8)| #[trigger]
                        self.block_at(l2) == if l2 == l {
                            Some(b.0)
                        } else {
                            old(self).block_at(l2)
                        } by {
                        lemma_assoc_get_update(olds, i as int, b, l2);
                    }
                    assert(unique_keys(self.blocks@)) by {
                        assert(forall|a: int|
                            0 <= a < self.blocks@.len() ==> (#[trigger] self.blocks@[a]).0
                                == olds[a].0);
                    }
                }
            },
            None => {
                let ghost olds = self.blocks@;
                self.blocks.push((l, b));
                proof {
                    assert forall|l2: (u8, u8, u8)| #[trigger]
                        self.block_at(l2) == if l2 == l {
                            Some(b.0)
                        } else {
                            old(self).block_at(l2)
                        } by {
                        lemma_assoc_get_push(olds, l, b, l2);
                    }
                    assert(unique_keys(self.blocks@)) by {
                        assert(forall|a: int|
                            0 <= a < olds.len() ==> self.blocks@[a] == olds[a]);
                        assert(self.blocks@[olds.len() as int].0 == l);
                    }
                }
            },
        }
    }

    /// Find the index of a sign entry with this key.
    fn find_sign(&self, k: (i32, i32, i32, u8)) -> (r: Option<usize>)
        ensures
            match r {
                Some(i) => i < self.signs@.len() && self.signs@[i as int].0 == k,
                None => forall|i: int|
                    0 <= i < self.signs@.len() ==> (#[trigger] self.signs@[i]).0 != k,
            },
    {
        let mut i: usize = 0;
        while i < self.signs.len()
            invariant
                0 <= i <= self.signs@.len(),
                forall|j: int| 0 <= j < i ==> (#[trigger] self.signs@[j]).0 != k,
            decreases self.signs@.len() - i,
        {
            let e = &self.signs[i];
            if e.0.0 == k.0 && e.0.1 == k.1 && e.0.2 == k.2 && e.0.3 == k.3 {
                return Some(i);
            }
            i += 1;
        }
        None
    }

    /// Upsert a sign.
    fn set_sign(&mut self, k: (i32, i32, i32, u8), sg: Sign)
        requires
            old(self).wf(),
        ensures
            final(self).wf(),
            forall|k2: (i32, i32, i32, u8)| #[trigger]
                final(self).sign_at(k2) == if k2 == k {
                    Some(sg@)
                } else {
                    old(self).sign_at(k2)
                },
            final(self).blocks@ == old(self).blocks@,
            final(self).lights@ == old(self).lights@,
    {
        let ghost sgv = sg@;
        match self.find_sign(k) {
            Some(i) => {
                proof {
                    assert(self.signs@[i as int].0 == k);
                }
                let ghost olds = self.signs@;
                self.signs[i] = (k, sg);
                proof {
                    let newsign = self.signs@[i as int].1;
                    assert(newsign@ == sgv);
                    assert(self.signs@ =~= olds.update(i as int, (k, newsign)));
                    assert forall|k2: (i32, i32, i32, u8)| #[trigger]
                        self.sign_at(k2) == if k2 == k {
                            Some(sgv)
                        } else {
                            old(self).sign_at(k2)
                        } by {
                        lemma_assoc_get_update(olds, i as int, newsign, k2);
                    }
                    assert(unique_keys(self.signs@)) by {
                        assert(forall|a: int|
                            0 <= a < self.signs@.len() ==> (#[trigger] self.signs@[a]).0
                                == olds[a].0);
                    }
                }
            },
            None => {
                let ghost olds = self.signs@;
                self.signs.push((k, sg));
                proof {
                    let newsign = self.signs@[olds.len() as int].1;
                    assert(newsign@ == sgv);
                    assert(self.signs@ == olds.push((k, newsign)));
                    assert forall|k2: (i32, i32, i32, u8)| #[trigger]
                        self.sign_at(k2) == if k2 == k {
                            Some(sgv)
                        } else {
                            old(self).sign_at(k2)
                        } by {
                        lemma_assoc_get_push(olds, k, newsign, k2);
                    }
                    assert(unique_keys(self.signs@)) by {
                        assert(forall|a: int|
                            0 <= a < olds.len() ==> self.signs@[a] == olds[a]);
                        assert(self.signs@[olds.len() as int].0 == k);
                    }
                }
            },
        }
    }

    /// Delete the sign on one face, if present.
    fn remove_sign(&mut self, k: (i32, i32, i32, u8))
        requires
            old(self).wf(),
        ensures
            final(self).wf(),
            forall|k2: (i32, i32, i32, u8)| #[trigger]
                final(self).sign_at(k2) == if k2 == k {
                    None::<Seq<char>>
                } else {
                    old(self).sign_at(k2)
                },
            final(self).blocks@ == old(self).blocks@,
            final(self).lights@ == old(self).lights@,
    {
        match self.find_sign(k) {
            Some(i) => {
                let ghost olds = self.signs@;
                self.signs.remove(i);
                proof {
                    assert forall|k2: (i32, i32, i32, u8)| #[trigger]
                        self.sign_at(k2) == if k2 == k {
                            None::<Seq<char>>
                        } else {
                            old(self).sign_at(k2)
                        } by {
                        lemma_assoc_get_remove(olds, i as int, k2);
                        if k2 == k && k2 != olds[i as int].0 {
                        }
                    }
                    lemma_assoc_get_remove(olds, i as int, k);
                }
            },
            None => {
                proof {
                    lemma_assoc_get_absent(self.signs@, k);
                }
            },
        }
    }

    /// Find any sign entry anchored at this global position.
    fn find_sign_anchor(&self, x: i32, y: i32, z: i32) -> (r: Option<usize>)
        ensures
            match r {
                Some(i) => {
                    &&& i < self.signs@.len()
                    &&& self.signs@[i as int].0.0 == x
                    &&& self.signs@[i as int].0.1 == y
                    &&& self.signs@[i as int].0.2 == z
                    &&& forall|j: int|
                        0 <= j < i ==> !((#[trigger] self.signs@[j]).0.0 == x && self.signs@[j].0.1
                            == y && self.signs@[j].0.2 == z)
                },
                None => forall|i: int|
                    0 <= i < self.signs@.len() ==> !((#[trigger] self.signs@[i]).0.0 == x
                        && self.signs@[i].0.1 == y && self.signs@[i].0.2 == z),
            },
    {
        let mut i: usize = 0;
        while i < self.signs.len()
            invariant
                0 <= i <= self.signs@.len(),
                forall|j: int|
                    0 <= j < i ==> !((#[trigger] self.signs@[j]).0.0 == x && self.signs@[j].0.1
                        == y && self.signs@[j].0.2 == z),
            decreases self.signs@.len() - i,
        {
            let e = &self.signs[i];
            if e.0.0 == x && e.0.1 == y && e.0.2 == z {
                return Some(i);
            }
            i += 1;
        }
        None
    }

    /// Delete every sign anchored at this global position, whatever its
    /// face.
    fn clear_signs_at(&mut self, x: i32, y: i32, z: i32)
        requires
            old(self).wf(),
        ensures
            final(self).wf(),
            forall|k2: (i32, i32, i32, u8)| #[trigger]
                final(self).sign_at(k2) == if k2.0 == x && k2.1 == y && k2.2 == z {
                    None::<Seq<char>>
                } else {
                    old(self).sign_at(k2)
                },
            final(self).signs@ == prune_signs(old(self).signs@, x, y, z),
            final(self).blocks@ == old(self).blocks@,
            final(self).lights@ == old(self).lights@,
    {
        let mut go = true;
        while go
            invariant
                self.wf(),
                self.blocks@ == old(self).blocks@,
                self.lights@ == old(self).lights@,
                prune_signs(self.signs@, x, y, z) == prune_signs(old(self).signs@, x, y, z),
                forall|k2: (i32, i32, i32, u8)|
                    !(k2.0 == x && k2.1 == y && k2.2 == z) ==> #[trigger] self.sign_at(k2) == old(
                        self,
                    ).sign_at(k2),
                !go ==> forall|i: int|
                    0 <= i < self.signs@.len() ==> !((#[trigger] self.signs@[i]).0.0 == x
                        && self.signs@[i].0.1 == y && self.signs@[i].0.2 == z),
            decreases self.signs@.len() + (if go {
                1int
            } else {
                0int
            }),
        {
            match self.find_sign_anchor(x, y, z) {
                Some(i) => {
                    let ghost pre = *self;
                    let ghost removed_key = self.signs@[i as int].0;
                    self.signs.remove(i);
                    proof {
                        assert forall|k2: (i32, i32, i32, u8)|
                            !(k2.0 == x && k2.1 == y && k2.2 == z) implies #[trigger] self.sign_at(
                            k2,
                        ) == old(self).sign_at(k2) by {
                            lemma_assoc_get_remove(pre.signs@, i as int, k2);
                            assert(pre.sign_at(k2) == old(self).sign_at(k2));
                            assert(self.signs@ == pre.signs@.remove(i as int));
                        }
                        lemma_assoc_get_remove(pre.signs@, i as int, removed_key);
                        lemma_prune_remove_first(pre.signs@, i as int, x, y, z);
                    }
                },
                None => {
                    go = false;
                },
            }
        }
        proof {
            lemma_prune_signs_id(self.signs@, x, y, z);
        }
        proof {
            assert forall|k2: (i32, i32, i32, u8)| #[trigger]
                self.sign_at(k2) == if k2.0 == x && k2.1 == y && k2.2 == z {
                    None::<Seq<char>>
                } else {
                    old(self).sign_at(k2)
                } by {
                if k2.0 == x && k2.1 == y && k2.2 == z {
                    assert(forall|i: int|
                        0 <= i < self.signs@.len() ==> (#[trigger] self.signs@[i]).0 != k2);
                    lemma_assoc_get_absent(self.signs@, k2);
                }
            }
        }
    }

    /// Find the index of a light entry with this local position.
    fn find_light(&self, l: (u8, u8, u8)) -> (r: Option<usize>)
        ensures
            match r {
                Some(i) => i < self.lights@.len() && self.lights@[i as int].0 == l,
                None => forall|i: int|
                    0 <= i < self.lights@.len() ==> (#[trigger] self.lights@[i]).0 != l,
            },
    {
        let mut i: usize = 0;
        while i < self.lights.len()
            invariant
                0 <= i <= self.lights@.len(),
                forall|j: int| 0 <= j < i ==> (#[trigger] self.lights@[j]).0 != l,
            decreases self.lights@.len() - i,
        {
            let e = &self.lights[i];
            if e.0.0 == l.0 && e.0.1 == l.1 && e.0.2 == l.2 {
                return Some(i);
            }
            i += 1;
        }
        None
    }

    /// Upsert a light.
    fn set_light(&mut self, l: (u8, u8, u8), lt: Light)
        requires
            old(self).wf(),
        ensures
            final(self).wf(),
            forall|l2: (u8, u8, u8)| #[trigger]
                final(self).light_at(l2) == if l2 == l {
                    Some(lt.0)
                } else {
                    old(self).light_at(l2)
                },
            final(self).blocks@ == old(self).blocks@,
            final(self).signs@ == old(self).signs@,
    {
        match self.find_light(l) {
            Some(i) => {
                proof {
                    assert(self.lights@[i as int].0 == l);
                }
                let ghost olds = self.lights@;
                self.lights[i] = (l, lt);
                proof {
                    assert(self.lights@ =~= olds.update(i as int, (l, lt)));
                    assert forall|l2: (u8, u8, u8)| #[trigger]
                        self.light_at(l2) == if l2 == l {
                            Some(lt.0)
                        } else {
                            old(self).light_at(l2)
                        } by {
                        lemma_assoc_get_update(olds, i as int, lt, l2);
                    }
                    assert(unique_keys(self.lights@)) by {
                        assert(forall|a: int|
                            0 <= a < self.lights@.len() ==> (#[trigger] self.lights@[a]).0
                                == olds[a].0);
                    }
                }
            },
            None => {
                let ghost olds = self.lights@;
                self.lights.push((l, lt));
                proof {
                    assert forall|l2: (u8, u8, u8)| #[trigger]
                        self.light_at(l2) == if l2 == l {
                            Some(lt.0)
                        } else {
                            old(self).light_at(l2)
                        } by {
                        lemma_assoc_get_push(olds, l, lt, l2);
                    }
                    assert(unique_keys(self.lights@)) by {
                        assert(forall|a: int|
                            0 <= a < olds.len() ==> self.lights@[a] == olds[a]);
                        assert(self.lights@[olds.len() as int].0 == l);
                    }
                }
            },
        }
    }
}

/// Every block entry of the chunk keyed `pq` maps back to a global
/// coordinate that fits in an `i32`.
pub closed spec fn chunk_fits(pq: (i32, i32), c: Chunk) -> bool {
    forall|j: int|
        0 <= j < c.blocks_seq().len() ==> {
            &&& i32::MIN <= pq.0 * 32 - 1 + (#[trigger] c.blocks_seq()[j]).0.0 <= i32::MAX
            &&& i32::MIN <= pq.1 * 32 - 1 + c.blocks_seq()[j].0.2 <= i32::MAX
        }
}

/// The chunk map: sectors of the world under their `(p, q)` keys.
pub struct ChunkManager {
    chunks: Vec<((i32, i32), Chunk)>,
}

impl ChunkManager {
    /// Chunk keys are unique and each chunk is well formed.
    pub closed spec fn wf(&self) -> bool {
        &&& unique_keys(self.chunks@)
        &&& forall|a: int|
            0 <= a < self.chunks@.len() ==> (#[trigger] self.chunks@[a]).1.wf()
        &&& forall|a: int|
            0 <= a < self.chunks@.len() ==> chunk_fits(
                (#[trigger] self.chunks@[a]).0,
                self.chunks@[a].1,
            )
    }

    /// Whether a chunk exists under this key.
    pub closed spec fn has_chunk(&self, pq: (i32, i32)) -> bool {
        assoc_get(self.chunks@, pq) is Some
    }

    /// The block stored at a local position of a chunk, if any.
    pub closed spec fn block_at(&self, pq: (i32, i32), l: (u8, u8, u8)) -> Option<i8> {
        match assoc_get(self.chunks@, pq) {
            Some(c) => c.block_at(l),
            None => None,
        }
    }

    /// The sign stored under a global key in a chunk, if any.
    pub closed spec fn sign_at(&self, pq: (i32, i32), k: (i32, i32, i32, u8)) -> Option<Seq<char>> {
        match assoc_get(self.chunks@, pq) {
            Some(c) => c.sign_at(k),
            None => None,
        }
    }

    /// The light stored at a local position of a chunk, if any.
    pub closed spec fn light_at(&self, pq: (i32, i32), l: (u8, u8, u8)) -> Option<u8> {
        match assoc_get(self.chunks@, pq) {
            Some(c) => c.light_at(l),
            None => None,
        }
    }

    /// The block entries of a chunk, as plain values; empty when absent.
    pub closed spec fn blocks_list(&self, pq: (i32, i32)) -> Seq<((u8, u8, u8), i8)> {
        match assoc_get(self.chunks@, pq) {
            Some(c) => c.blocks_seq(),
            None => Seq::empty(),
        }
    }

    /// The sign entries of a chunk, as plain values; empty when absent.
    pub closed spec fn signs_list(&self, pq: (i32, i32)) -> Seq<((i32, i32, i32, u8), Seq<char>)> {
        match assoc_get(self.chunks@, pq) {
            Some(c) => c.signs_seq(),
            None => Seq::empty(),
        }
    }

    fn new() -> (m: ChunkManager)
        ensures
            m.wf(),
            forall|pq: (i32, i32)| !m.has_chunk(pq),
            forall|pq: (i32, i32), l: (u8, u8, u8)| m.block_at(pq, l) is None,
            forall|pq: (i32, i32), k: (i32, i32, i32, u8)| m.sign_at(pq, k) is None,
            forall|pq: (i32, i32), l: (u8, u8, u8)| m.light_at(pq, l) is None,
    {
        ChunkManager { chunks: Vec::new() }
    }

    /// Find the index of the chunk with this key.
    fn find_chunk(&self, pq: (i32, i32)) -> (r: Option<usize>)
        ensures
            match r {
                Some(i) => i < self.chunks@.len() && self.chunks@[i as int].0 == pq,
                None => forall|i: int|
                    0 <= i < self.chunks@.len() ==> (#[trigger] self.chunks@[i]).0 != pq,
            },
    {
        let mut i: usize = 0;
        while i < self.chunks.len()
            invariant
                0 <= i <= self.chunks@.len(),
                forall|j: int| 0 <= j < i ==> (#[trigger] self.chunks@[j]).0 != pq,
            decreases self.chunks@.len() - i,
        {
            let e = &self.chunks[i];
            if e.0.0 == pq.0 && e.0.1 == pq.1 {
                return Some(i);
            }
            i += 1;
        }
        None
    }

    /// Set a block in the chunk keyed `pq`, creating the chunk on first
    /// edit.
    fn set_block(&mut self, global_pos: (i32, i32, i32), pq: (i32, i32), block: Block)
        requires
            old(self).wf(),
            local_in_range(global_pos, pq),
        ensures
            final(self).wf(),
            forall|pq2: (i32, i32), l2: (u8, u8, u8)| #[trigger]
                final(self).block_at(pq2, l2) == if pq2 == pq && l2 == local_key(global_pos, pq) {
                    Some(block.0)
                } else {
                    old(self).block_at(pq2, l2)
                },
            forall|pq2: (i32, i32), k2: (i32, i32, i32, u8)| #[trigger]
                final(self).sign_at(pq2, k2) == old(self).sign_at(pq2, k2),
            forall|pq2: (i32, i32), l2: (u8, u8, u8)| #[trigger]
                final(self).light_at(pq2, l2) == old(self).light_at(pq2, l2),
            forall|pq2: (i32, i32)| #[trigger]
                final(self).has_chunk(pq2) == (old(self).has_chunk(pq2) || pq2 == pq),
            forall|pq2: (i32, i32)|
                pq2 != pq ==> #[trigger] final(self).blocks_list(pq2) == old(self).blocks_list(
                    pq2,
                ),
            forall|pq2: (i32, i32)| #[trigger]
                final(self).signs_list(pq2) == old(self).signs_list(pq2),
    {
        let l = local_of(global_pos, pq);
        match self.find_chunk(pq) {
            Some(i) => {
                let ghost pres = self.chunks@;
                proof {
                    lemma_assoc_get_at(pres, i as int);
                }
                let mut entry = self.chunks.remove(i);
                let ghost oldc = entry.1;
                entry.1.set_block(l, block);
                let ghost newc = entry.1;
                self.chunks.push(entry);
                proof {
                    assert(self.chunks@ == pres.remove(i as int).push((pq, newc)));
                    assert(chunk_fits(pq, newc)) by {
                        assert forall|j: int| 0 <= j < newc.blocks_seq().len() implies {
                            &&& i32::MIN <= pq.0 * 32 - 1 + (#[trigger] newc.blocks_seq()[j]).0.0
                                <= i32::MAX
                            &&& i32::MIN <= pq.1 * 32 - 1 + newc.blocks_seq()[j].0.2 <= i32::MAX
                        } by {
                            assert(newc.blocks_seq()[j].0 == newc.blocks@[j].0);
                            if newc.blocks@[j].0 != l {
                                let a = choose|a: int|
                                    0 <= a < oldc.blocks@.len() && (#[trigger] oldc.blocks@[a]).0
                                        == newc.blocks@[j].0;
                                assert(oldc.blocks_seq()[a].0 == oldc.blocks@[a].0);
                            }
                        }
                    }
                    assert forall|pq2: (i32, i32), l2: (u8, u8, u8)| true implies #[trigger] self
                        .block_at(pq2, l2) == if pq2 == pq && l2 == local_key(global_pos, pq) {
                        Some(block.0)
                    } else {
                        old(self).block_at(pq2, l2)
                    } by {
                        lemma_reinsert(pres, i as int, newc, pq2);
                    }
                    assert forall|pq2: (i32, i32), k2: (i32, i32, i32, u8)| true implies #[trigger]
                        self.sign_at(pq2, k2) == old(self).sign_at(pq2, k2) by {
                        lemma_reinsert(pres, i as int, newc, pq2);
                    }
                    assert forall|pq2: (i32, i32), l2: (u8, u8, u8)| true implies #[trigger] self
                        .light_at(pq2, l2) == old(self).light_at(pq2, l2) by {
                        lemma_reinsert(pres, i as int, newc, pq2);
                    }
                    assert forall|pq2: (i32, i32)| true implies #[trigger] self.has_chunk(pq2) == (
                    old(self).has_chunk(pq2) || pq2 == pq) by {
                        lemma_reinsert(pres, i as int, newc, pq2);
                    }
                    assert forall|pq2: (i32, i32)| pq2 != pq implies #[trigger] self.blocks_list(
                        pq2,
                    ) == old(self).blocks_list(pq2) by {
                        lemma_reinsert(pres, i as int, newc, pq2);
                    }
                    assert forall|pq2: (i32, i32)| true implies #[trigger] self.signs_list(pq2)
                        == old(self).signs_list(pq2) by {
                        lemma_reinsert(pres, i as int, newc, pq2);
                        if pq2 == pq {
                            assert(newc.signs_seq() =~= oldc.signs_seq());
                        }
                    }
                    assert(self.wf()) by {
                        lemma_reinsert(pres, i as int, newc, pq);
                        assert(forall|a: int|
                            0 <= a < pres.remove(i as int).len() ==> #[trigger] pres.remove(
                                i as int,
                            )[a] == if a < i as int {
                                pres[a]
                            } else {
                                pres[a + 1]
                            });
                    }
                }
            },
            None => {
                let ghost pres = self.chunks@;
                let mut c = Chunk::new();
                c.set_block(l, block);
                let ghost newc = c;
                self.chunks.push((pq, c));
                proof {
                    assert(self.chunks@ == pres.push((pq, newc)));
                    lemma_assoc_get_absent(pres, pq);
                    assert(chunk_fits(pq, newc)) by {
                        assert forall|j: int| 0 <= j < newc.blocks_seq().len() implies {
                            &&& i32::MIN <= pq.0 * 32 - 1 + (#[trigger] newc.blocks_seq()[j]).0.0
                                <= i32::MAX
                            &&& i32::MIN <= pq.1 * 32 - 1 + newc.blocks_seq()[j].0.2 <= i32::MAX
                        } by {
                            assert(newc.blocks_seq()[j].0 == newc.blocks@[j].0);
                        }
                    }
                    assert forall|pq2: (i32, i32), l2: (u8, u8, u8)| true implies #[trigger] self
                        .block_at(pq2, l2) == if pq2 == pq && l2 == local_key(global_pos, pq) {
                        Some(block.0)
                    } else {
                        old(self).block_at(pq2, l2)
                    } by {
                        lemma_assoc_get_push(pres, pq, newc, pq2);
                    }
                    assert forall|pq2: (i32, i32), k2: (i32, i32, i32, u8)| true implies #[trigger]
                        self.sign_at(pq2, k2) == old(self).sign_at(pq2, k2) by {
                        lemma_assoc_get_push(pres, pq, newc, pq2);
                    }
                    assert forall|pq2: (i32, i32), l2: (u8, u8, u8)| true implies #[trigger] self
                        .light_at(pq2, l2) == old(self).light_at(pq2, l2) by {
                        lemma_assoc_get_push(pres, pq, newc, pq2);
                    }
                    assert forall|pq2: (i32, i32)| true implies #[trigger] self.has_chunk(pq2) == (
                    old(self).has_chunk(pq2) || pq2 == pq) by {
                        lemma_assoc_get_push(pres, pq, newc, pq2);
                    }
                    assert forall|pq2: (i32, i32)| pq2 != pq implies #[trigger] self.blocks_list(
                        pq2,
                    ) == old(self).blocks_list(pq2) by {
                        lemma_assoc_get_push(pres, pq, newc, pq2);
                    }
                    assert forall|pq2: (i32, i32)| true implies #[trigger] self.signs_list(pq2)
                        == old(self).signs_list(pq2) by {
                        lemma_assoc_get_push(pres, pq, newc, pq2);
                        if pq2 == pq {
                            assert(newc.signs_seq() =~= Seq::<
                                ((i32, i32, i32, u8), Seq<char>),
                            >::empty());
                        }
                    }
                    assert(self.wf()) by {
                        assert(forall|a: int|
                            0 <= a < pres.len() ==> #[trigger] self.chunks@[a] == pres[a]);
                        assert(self.chunks@[pres.len() as int] == (pq, newc));
                    }
                }
            },
        }
    }
    /// Upsert a sign in the chunk keyed `pq`, creating the chunk on first
    /// edit.
    fn set_sign(&mut self, pq: (i32, i32), k: (i32, i32, i32, u8), sg: Sign)
        requires
            old(self).wf(),
        ensures
            final(self).wf(),
            forall|pq2: (i32, i32), k2: (i32, i32, i32, u8)| #[trigger]
                final(self).sign_at(pq2, k2) == if pq2 == pq && k2 == k {
                    Some(sg@)
                } else {
                    old(self).sign_at(pq2, k2)
                },
            forall|pq2: (i32, i32), l2: (u8, u8, u8)| #[trigger]
                final(self).block_at(pq2, l2) == old(self).block_at(pq2, l2),
            forall|pq2: (i32, i32), l2: (u8, u8, u8)| #[trigger]
                final(self).light_at(pq2, l2) == old(self).light_at(pq2, l2),
            forall|pq2: (i32, i32)| #[trigger]
                final(self).has_chunk(pq2) == (old(self).has_chunk(pq2) || pq2 == pq),
            forall|pq2: (i32, i32)| #[trigger]
                final(self).blocks_list(pq2) == old(self).blocks_list(pq2),
            forall|pq2: (i32, i32)|
                pq2 != pq ==> #[trigger] final(self).signs_list(pq2) == old(self).signs_list(
                    pq2,
                ),
    {
        let ghost sgv = sg@;
        match self.find_chunk(pq) {
            Some(i) => {
                let ghost pres = self.chunks@;
                proof {
                    lemma_assoc_get_at(pres, i as int);
                }
                let mut entry = self.chunks.remove(i);
                let ghost oldc = entry.1;
                entry.1.set_sign(k, sg);
                let ghost newc = entry.1;
                self.chunks.push(entry);
                proof {
                    assert(self.chunks@ == pres.remove(i as int).push((pq, newc)));
                    assert(chunk_fits(pq, newc)) by {
                        assert(newc.blocks@ == oldc.blocks@);
                        assert(newc.blocks_seq() == oldc.blocks_seq());
                    }
                    assert forall|pq2: (i32, i32), k2: (i32, i32, i32, u8)| true implies #[trigger]
                        self.sign_at(pq2, k2) == if pq2 == pq && k2 == k {
                        Some(sgv)
                    } else {
                        old(self).sign_at(pq2, k2)
                    } by {
                        lemma_reinsert(pres, i as int, newc, pq2);
                    }
                    assert forall|pq2: (i32, i32), l2: (u8, u8, u8)| true implies #[trigger] self
                        .block_at(pq2, l2) == old(self).block_at(pq2, l2) by {
                        lemma_reinsert(pres, i as int, newc, pq2);
                    }
                    assert forall|pq2: (i32, i32), l2: (u8, u8, u8)| true implies #[trigger] self
                        .light_at(pq2, l2) == old(self).light_at(pq2, l2) by {
                        lemma_reinsert(pres, i as int, newc, pq2);
                    }
                    assert forall|pq2: (i32, i32)| true implies #[trigger] self.has_chunk(pq2) == (
                    old(self).has_chunk(pq2) || pq2 == pq) by {
                        lemma_reinsert(pres, i as int, newc, pq2);
                    }
                    assert forall|pq2: (i32, i32)| true implies #[trigger] self.blocks_list(pq2)
                        == old(self).blocks_list(pq2) by {
                        lemma_reinsert(pres, i as int, newc, pq2);
                        if pq2 == pq {
                            assert(newc.blocks_seq() =~= oldc.blocks_seq());
                        }
                    }
                    assert forall|pq2: (i32, i32)| pq2 != pq implies #[trigger] self.signs_list(
                        pq2,
                    ) == old(self).signs_list(pq2) by {
                        lemma_reinsert(pres, i as int, newc, pq2);
                    }
                    assert(self.wf()) by {
                        lemma_reinsert(pres, i as int, newc, pq);
                        assert(forall|a: int|
                            0 <= a < pres.remove(i as int).len() ==> #[trigger] pres.remove(
                                i as int,
                            )[a] == if a < i as int {
                                pres[a]
                            } else {
                                pres[a + 1]
                            });
                    }
                }
            },
            None => {
                let ghost pres = self.chunks@;
                let mut c = Chunk::new();
                c.set_sign(k, sg);
                let ghost newc = c;
                self.chunks.push((pq, c));
                proof {
                    assert(self.chunks@ == pres.push((pq, newc)));
                    lemma_assoc_get_absent(pres, pq);
                    assert(chunk_fits(pq, newc)) by {
                        assert(newc.blocks@.len() == 0);
                    }
                    assert forall|pq2: (i32, i32), k2: (i32, i32, i32, u8)| true implies #[trigger]
                        self.sign_at(pq2, k2) == if pq2 == pq && k2 == k {
                        Some(sgv)
                    } else {
                        old(self).sign_at(pq2, k2)
                    } by {
                        lemma_assoc_get_push(pres, pq, newc, pq2);
                    }
                    assert forall|pq2: (i32, i32), l2: (u8, u8, u8)| true implies #[trigger] self
                        .block_at(pq2, l2) == old(self).block_at(pq2, l2) by {
                        lemma_assoc_get_push(pres, pq, newc, pq2);
                    }
                    assert forall|pq2: (i32, i32), l2: (u8, u8, u8)| true implies #[trigger] self
                        .light_at(pq2, l2) == old(self).light_at(pq2, l2) by {
                        lemma_assoc_get_push(pres, pq, newc, pq2);
                    }
                    assert forall|pq2: (i32, i32)| true implies #[trigger] self.has_chunk(pq2) == (
                    old(self).has_chunk(pq2) || pq2 == pq) by {
                        lemma_assoc_get_push(pres, pq, newc, pq2);
                    }
                    assert forall|pq2: (i32, i32)| true implies #[trigger] self.blocks_list(pq2)
                        == old(self).blocks_list(pq2) by {
                        lemma_assoc_get_push(pres, pq, newc, pq2);
                        if pq2 == pq {
                            assert(newc.blocks_seq() =~= Seq::<((u8, u8, u8), i8)>::empty());
                        }
                    }
                    assert forall|pq2: (i32, i32)| pq2 != pq implies #[trigger] self.signs_list(
                        pq2,
                    ) == old(self).signs_list(pq2) by {
                        lemma_assoc_get_push(pres, pq, newc, pq2);
                    }
                    assert(self.wf()) by {
                        assert(forall|a: int|
                            0 <= a < pres.len() ==> #[trigger] self.chunks@[a] == pres[a]);
                        assert(self.chunks@[pres.len() as int] == (pq, newc));
                    }
                }
            },
        }
    }

    /// Delete the sign on one face in the chunk keyed `pq`, if present.
    fn remove_sign(&mut self, pq: (i32, i32), k: (i32, i32, i32, u8))
        requires
            old(self).wf(),
        ensures
            final(self).wf(),
            forall|pq2: (i32, i32), k2: (i32, i32, i32, u8)| #[trigger]
                final(self).sign_at(pq2, k2) == if pq2 == pq && k2 == k {
                    None::<Seq<char>>
                } else {
                    old(self).sign_at(pq2, k2)
                },
            forall|pq2: (i32, i32), l2: (u8, u8, u8)| #[trigger]
                final(self).block_at(pq2, l2) == old(self).block_at(pq2, l2),
            forall|pq2: (i32, i32), l2: (u8, u8, u8)| #[trigger]
                final(self).light_at(pq2, l2) == old(self).light_at(pq2, l2),
            forall|pq2: (i32, i32)| #[trigger]
                final(self).has_chunk(pq2) == old(self).has_chunk(pq2),
            forall|pq2: (i32, i32)| #[trigger]
                final(self).blocks_list(pq2) == old(self).blocks_list(pq2),
            forall|pq2: (i32, i32)|
                pq2 != pq ==> #[trigger] final(self).signs_list(pq2) == old(self).signs_list(
                    pq2,
                ),
    {
        match self.find_chunk(pq) {
            Some(i) => {
                let ghost pres = self.chunks@;
                proof {
                    lemma_assoc_get_at(pres, i as int);
                }
                let mut entry = self.chunks.remove(i);
                let ghost oldc = entry.1;
                entry.1.remove_sign(k);
                let ghost newc = entry.1;
                self.chunks.push(entry);
                proof {
                    assert(self.chunks@ == pres.remove(i as int).push((pq, newc)));
                    assert(chunk_fits(pq, newc)) by {
                        assert(newc.blocks@ == oldc.blocks@);
                        assert(newc.blocks_seq() == oldc.blocks_seq());
                    }
                    assert forall|pq2: (i32, i32), k2: (i32, i32, i32, u8)| true implies #[trigger]
                        self.sign_at(pq2, k2) == if pq2 == pq && k2 == k {
                        None::<Seq<char>>
                    } else {
                        old(self).sign_at(pq2, k2)
                    } by {
                        lemma_reinsert(pres, i as int, newc, pq2);
                    }
                    assert forall|pq2: (i32, i32), l2: (u8, u8, u8)| true implies #[trigger] self
                        .block_at(pq2, l2) == old(self).block_at(pq2, l2) by {
                        lemma_reinsert(pres, i as int, newc, pq2);
                    }
                    assert forall|pq2: (i32, i32), l2: (u8, u8, u8)| true implies #[trigger] self
                        .light_at(pq2, l2) == old(self).light_at(pq2, l2) by {
                        lemma_reinsert(pres, i as int, newc, pq2);
                    }
                    assert forall|pq2: (i32, i32)| true implies #[trigger] self.has_chunk(pq2)
                        == old(self).has_chunk(pq2) by {
                        lemma_reinsert(pres, i as int, newc, pq2);
                        lemma_assoc_get_remove(pres, i as int, pq2);
                    }
                    assert forall|pq2: (i32, i32)| true implies #[trigger] self.blocks_list(pq2)
                        == old(self).blocks_list(pq2) by {
                        lemma_reinsert(pres, i as int, newc, pq2);
                        if pq2 == pq {
                            assert(newc.blocks_seq() =~= oldc.blocks_seq());
                        }
                    }
                    assert forall|pq2: (i32, i32)| pq2 != pq implies #[trigger] self.signs_list(
                        pq2,
                    ) == old(self).signs_list(pq2) by {
                        lemma_reinsert(pres, i as int, newc, pq2);
                    }
                    assert(self.wf()) by {
                        lemma_reinsert(pres, i as int, newc, pq);
                        assert(forall|a: int|
                            0 <= a < pres.remove(i as int).len() ==> #[trigger] pres.remove(
                                i as int,
                            )[a] == if a < i as int {
                                pres[a]
                            } else {
                                pres[a + 1]
                            });
                    }
                }
            },
            None => {
                proof {
                    lemma_assoc_get_absent(self.chunks@, pq);
                }
            },
        }
    }

    /// Upsert a light in the chunk keyed `pq`, creating the chunk on
    /// first edit.
    fn set_light(&mut self, global_pos: (i32, i32, i32), pq: (i32, i32), light: Light)
        requires
            old(self).wf(),
            local_in_range(global_pos, pq),
        ensures
            final(self).wf(),
            forall|pq2: (i32, i32), l2: (u8, u8, u8)| #[trigger]
                final(self).light_at(pq2, l2) == if pq2 == pq && l2 == local_key(global_pos, pq) {
                    Some(light.0)
                } else {
                    old(self).light_at(pq2, l2)
                },
            forall|pq2: (i32, i32), l2: (u8, u8, u8)| #[trigger]
                final(self).block_at(pq2, l2) == old(self).block_at(pq2, l2),
            forall|pq2: (i32, i32), k2: (i32, i32, i32, u8)| #[trigger]
                final(self).sign_at(pq2, k2) == old(self).sign_at(pq2, k2),
            forall|pq2: (i32, i32)| #[trigger]
                final(self).has_chunk(pq2) == (old(self).has_chunk(pq2) || pq2 == pq),
            forall|pq2: (i32, i32)| #[trigger]
                final(self).blocks_list(pq2) == old(self).blocks_list(pq2),
            forall|pq2: (i32, i32)| #[trigger]
                final(self).signs_list(pq2) == old(self).signs_list(pq2),
    {
        let l = local_of(global_pos, pq);
        match self.find_chunk(pq) {
            Some(i) => {
                let ghost pres = self.chunks@;
                proof {
                    lemma_assoc_get_at(pres, i as int);
                }
                let mut entry = self.chunks.remove(i);
                let ghost oldc = entry.1;
                entry.1.set_light(l, light);
                let ghost newc = entry.1;
                self.chunks.push(entry);
                proof {
                    assert(self.chunks@ == pres.remove(i as int).push((pq, newc)));
                    assert(chunk_fits(pq, newc)) by {
                        assert(newc.blocks@ == oldc.blocks@);
                        assert(newc.blocks_seq() == oldc.blocks_seq());
                    }
                    assert forall|pq2: (i32, i32), l2: (u8, u8, u8)| true implies #[trigger] self
                        .light_at(pq2, l2) == if pq2 == pq && l2 == local_key(global_pos, pq) {
                        Some(light.0)
                    } else {
                        old(self).light_at(pq2, l2)
                    } by {
                        lemma_reinsert(pres, i as int, newc, pq2);
                    }
                    assert forall|pq2: (i32, i32), l2: (u8, u8, u8)| true implies #[trigger] self
                        .block_at(pq2, l2) == old(self).block_at(pq2, l2) by {
                        lemma_reinsert(pres, i as int, newc, pq2);
                    }
                    assert forall|pq2: (i32, i32), k2: (i32, i32, i32, u8)| true implies #[trigger]
                        self.sign_at(pq2, k2) == old(self).sign_at(pq2, k2) by {
                        lemma_reinsert(pres, i as int, newc, pq2);
                    }
                    assert forall|pq2: (i32, i32)| true implies #[trigger] self.has_chunk(pq2) == (
                    old(self).has_chunk(pq2) || pq2 == pq) by {
                        lemma_reinsert(pres, i as int, newc, pq2);
                    }
                    assert forall|pq2: (i32, i32)| true implies #[trigger] self.blocks_list(pq2)
                        == old(self).blocks_list(pq2) by {
                        lemma_reinsert(pres, i as int, newc, pq2);
                        if pq2 == pq {
                            assert(newc.blocks_seq() =~= oldc.blocks_seq());
                        }
                    }
                    assert forall|pq2: (i32, i32)| true implies #[trigger] self.signs_list(pq2)
                        == old(self).signs_list(pq2) by {
                        lemma_reinsert(pres, i as int, newc, pq2);
                        if pq2 == pq {
                            assert(newc.signs_seq() =~= oldc.signs_seq());
                        }
                    }
                    assert(self.wf()) by {
                        lemma_reinsert(pres, i as int, newc, pq);
                        assert(forall|a: int|
                            0 <= a < pres.remove(i as int).len() ==> #[trigger] pres.remove(
                                i as int,
                            )[a] == if a < i as int {
                                pres[a]
                            } else {
                                pres[a + 1]
                            });
                    }
                }
            },
            None => {
                let ghost pres = self.chunks@;
                let mut c = Chunk::new();
                c.set_light(l, light);
                let ghost newc = c;
                self.chunks.push((pq, c));
                proof {
                    assert(self.chunks@ == pres.push((pq, newc)));
                    lemma_assoc_get_absent(pres, pq);
                    assert(chunk_fits(pq, newc)) by {
                        assert(newc.blocks@.len() == 0);
                    }
                    assert forall|pq2: (i32, i32), l2: (u8, u8, u8)| true implies #[trigger] self
                        .light_at(pq2, l2) == if pq2 == pq && l2 == local_key(global_pos, pq) {
                        Some(light.0)
                    } else {
                        old(self).light_at(pq2, l2)
                    } by {
                        lemma_assoc_get_push(pres, pq, newc, pq2);
                    }
                    assert forall|pq2: (i32, i32), l2: (u8, u8, u8)| true implies #[trigger] self
                        .block_at(pq2, l2) == old(self).block_at(pq2, l2) by {
                        lemma_assoc_get_push(pres, pq, newc, pq2);
                    }
                    assert forall|pq2: (i32, i32), k2: (i32, i32, i32, u8)| true implies #[trigger]
                        self.sign_at(pq2, k2) == old(self).sign_at(pq2, k2) by {
                        lemma_assoc_get_push(pres, pq, newc, pq2);
                    }
                    assert forall|pq2: (i32, i32)| true implies #[trigger] self.has_chunk(pq2) == (
                    old(self).has_chunk(pq2) || pq2 == pq) by {
                        lemma_assoc_get_push(pres, pq, newc, pq2);
                    }
                    assert forall|pq2: (i32, i32)| true implies #[trigger] self.blocks_list(pq2)
                        == old(self).blocks_list(pq2) by {
                        lemma_assoc_get_push(pres, pq, newc, pq2);
                        if pq2 == pq {
                            assert(newc.blocks_seq() =~= Seq::<((u8, u8, u8), i8)>::empty());
                        }
                    }
                    assert forall|pq2: (i32, i32)| true implies #[trigger] self.signs_list(pq2)
                        == old(self).signs_list(pq2) by {
                        lemma_assoc_get_push(pres, pq, newc, pq2);
                        if pq2 == pq {
                            assert(newc.signs_seq() =~= Seq::<
                                ((i32, i32, i32, u8), Seq<char>),
                            >::empty());
                        }
                    }
                    assert(self.wf()) by {
                        assert(forall|a: int|
                            0 <= a < pres.len() ==> #[trigger] self.chunks@[a] == pres[a]);
                        assert(self.chunks@[pres.len() as int] == (pq, newc));
                    }
                }
            },
        }
    }

    /// Delete every sign anchored at this global position, in every
    /// chunk.
    fn clear_signs_everywhere(&mut self, x: i32, y: i32, z: i32)
        requires
            old(self).wf(),
        ensures
            final(self).wf(),
            forall|pq2: (i32, i32), k2: (i32, i32, i32, u8)| #[trigger]
                final(self).sign_at(pq2, k2) == if k2.0 == x && k2.1 == y && k2.2 == z {
                    None::<Seq<char>>
                } else {
                    old(self).sign_at(pq2, k2)
                },
            forall|pq2: (i32, i32), l2: (u8, u8, u8)| #[trigger]
                final(self).block_at(pq2, l2) == old(self).block_at(pq2, l2),
            forall|pq2: (i32, i32), l2: (u8, u8, u8)| #[trigger]
                final(self).light_at(pq2, l2) == old(self).light_at(pq2, l2),
            forall|pq2: (i32, i32)| #[trigger]
                final(self).has_chunk(pq2) == old(self).has_chunk(pq2),
            forall|pq2: (i32, i32)| #[trigger]
                final(self).signs_list(pq2) == prune_sign_listing(
                    old(self).signs_list(pq2),
                    x,
                    y,
                    z,
                ),
            forall|pq2: (i32, i32)| #[trigger]
                final(self).blocks_list(pq2) == old(self).blocks_list(pq2),
    {
        let ghost pres = self.chunks@;
        let n = self.chunks.len();
        let mut j: usize = 0;
        while j < n
            invariant
                0 <= j <= n,
                n == self.chunks@.len() == pres.len(),
                unique_keys(pres),
                forall|a: int| 0 <= a < pres.len() ==> (#[trigger] pres[a]).1.wf(),
                forall|a: int|
                    0 <= a < pres.len() ==> chunk_fits((#[trigger] pres[a]).0, pres[a].1),
                forall|a: int|
                    0 <= a < n ==> (#[trigger] self.chunks@[a]).0 == pres[a].0,
                forall|a: int| j <= a < n ==> (#[trigger] self.chunks@[a]) == pres[a],
                forall|a: int|
                    0 <= a < j ==> {
                        let c = (#[trigger] self.chunks@[a]).1;
                        &&& c.wf()
                        &&& c.blocks@ == pres[a].1.blocks@
                        &&& c.lights@ == pres[a].1.lights@
                        &&& c.signs@ == prune_signs(pres[a].1.signs@, x, y, z)
                        &&& forall|k2: (i32, i32, i32, u8)| #[trigger]
                            c.sign_at(k2) == if k2.0 == x && k2.1 == y && k2.2 == z {
                                None::<Seq<char>>
                            } else {
                                pres[a].1.sign_at(k2)
                            }
                    },
            decreases n - j,
        {
            let ghost mid = self.chunks@;
            let mut entry = self.chunks.remove(j);
            entry.1.clear_signs_at(x, y, z);
            self.chunks.insert(j, entry);
            proof {
                assert(self.chunks@ =~= mid.update(j as int, (mid[j as int].0, self.chunks@[
                j as int].1)));
            }
            j += 1;
        }
        proof {
            assert(self.wf()) by {
                assert forall|a: int, b: int| 0 <= a < b < self.chunks@.len() implies (
                #[trigger] self.chunks@[a]).0 != (#[trigger] self.chunks@[b]).0 by {
                    assert(self.chunks@[a].0 == pres[a].0);
                    assert(self.chunks@[b].0 == pres[b].0);
                }
                assert forall|a: int| 0 <= a < self.chunks@.len() implies (
                #[trigger] self.chunks@[a]).1.wf() && chunk_fits(
                    self.chunks@[a].0,
                    self.chunks@[a].1,
                ) by {
                    assert(self.chunks@[a].1.blocks@ == pres[a].1.blocks@);
                    assert(self.chunks@[a].1.blocks_seq() == pres[a].1.blocks_seq());
                    assert(self.chunks@[a].0 == pres[a].0);
                    assert(chunk_fits(pres[a].0, pres[a].1));
                }
            }
            assert forall|pq2: (i32, i32), k2: (i32, i32, i32, u8)| true implies #[trigger] self
                .sign_at(pq2, k2) == if k2.0 == x && k2.1 == y && k2.2 == z {
                None::<Seq<char>>
            } else {
                old(self).sign_at(pq2, k2)
            } by {
                lemma_assoc_same_keys(pres, self.chunks@, pq2);
            }
            assert forall|pq2: (i32, i32), l2: (u8, u8, u8)| true implies #[trigger] self.block_at(
                pq2,
                l2,
            ) == old(self).block_at(pq2, l2) by {
                lemma_assoc_same_keys(pres, self.chunks@, pq2);
            }
            assert forall|pq2: (i32, i32), l2: (u8, u8, u8)| true implies #[trigger] self.light_at(
                pq2,
                l2,
            ) == old(self).light_at(pq2, l2) by {
                lemma_assoc_same_keys(pres, self.chunks@, pq2);
            }
            assert forall|pq2: (i32, i32)| true implies #[trigger] self.has_chunk(pq2) == old(
                self,
            ).has_chunk(pq2) by {
                lemma_assoc_same_keys(pres, self.chunks@, pq2);
            }
            assert forall|pq2: (i32, i32)| true implies #[trigger] self.signs_list(pq2)
                == prune_sign_listing(old(self).signs_list(pq2), x, y, z) by {
                lemma_assoc_same_keys(pres, self.chunks@, pq2);
                if assoc_get(pres, pq2) is Some {
                    let i = choose|i: int|
                        0 <= i < pres.len() && (#[trigger] pres[i]).0 == pq2 && assoc_get(
                            pres,
                            pq2,
                        ) == Some(pres[i].1) && assoc_get(self.chunks@, pq2) == Some(
                            self.chunks@[i].1,
                        );
                    lemma_prune_map(pres[i].1.signs@, x, y, z);
                }
            }
            assert forall|pq2: (i32, i32)| true implies #[trigger] self.blocks_list(pq2) == old(
                self,
            ).blocks_list(pq2) by {
                lemma_assoc_same_keys(pres, self.chunks@, pq2);
            }
        }
    }
    /// Copy out the block entries of the chunk keyed `pq`.
    fn get_blocks(&self, pq: (i32, i32)) -> (r: Option<Vec<((u8, u8, u8), Block)>>)
        requires
            self.wf(),
        ensures
            r is Some <==> self.has_chunk(pq),
            match r {
                Some(v) => {
                    &&& v@.map_values(|e: ((u8, u8, u8), Block)| (e.0, e.1.0))
                        == self.blocks_list(pq)
                    &&& forall|j: int|
                        0 <= j < v@.len() ==> {
                            &&& i32::MIN <= pq.0 * 32 - 1 + (#[trigger] v@[j]).0.0 <= i32::MAX
                            &&& i32::MIN <= pq.1 * 32 - 1 + v@[j].0.2 <= i32::MAX
                        }
                },
                None => self.blocks_list(pq) == Seq::<((u8, u8, u8), i8)>::empty(),
            },
    {
        match self.find_chunk(pq) {
            Some(i) => {
                proof {
                    lemma_assoc_get_at(self.chunks@, i as int);
                }
                let c = &self.chunks[i].1;
                let n = c.blocks.len();
                let mut out: Vec<((u8, u8, u8), Block)> = Vec::new();
                let mut j: usize = 0;
                while j < n
                    invariant
                        0 <= j <= n,
                        n == c.blocks@.len(),
                        out@ == c.blocks@.take(j as int),
                    decreases n - j,
                {
                    out.push(c.blocks[j]);
                    proof {
                        assert(c.blocks@.take(j as int + 1) =~= c.blocks@.take(j as int).push(
                            c.blocks@[j as int],
                        ));
                    }
                    j += 1;
                }
                proof {
                    assert(c.blocks@.take(n as int) =~= c.blocks@);
                    assert(out@.map_values(|e: ((u8, u8, u8), Block)| (e.0, e.1.0))
                        =~= c.blocks_seq());
                    assert(chunk_fits(pq, *c));
                    assert forall|jj: int| 0 <= jj < out@.len() implies {
                        &&& i32::MIN <= pq.0 * 32 - 1 + (#[trigger] out@[jj]).0.0 <= i32::MAX
                        &&& i32::MIN <= pq.1 * 32 - 1 + out@[jj].0.2 <= i32::MAX
                    } by {
                        assert(c.blocks_seq()[jj].0 == out@[jj].0);
                    }
                }
                Some(out)
            },
            None => {
                proof {
                    lemma_assoc_get_absent(self.chunks@, pq);
                }
                None
            },
        }
    }

    /// Copy out the sign entries of the chunk keyed `pq`.
    fn get_signs(&self, pq: (i32, i32)) -> (r: Option<Vec<((i32, i32, i32, u8), Sign)>>)
        requires
            self.wf(),
        ensures
            r is Some <==> self.has_chunk(pq),
            match r {
                Some(v) => v@.map_values(|e: ((i32, i32, i32, u8), Sign)| (e.0, e.1@))
                    == self.signs_list(pq),
                None => self.signs_list(pq) == Seq::<((i32, i32, i32, u8), Seq<char>)>::empty(),
            },
    {
        match self.find_chunk(pq) {
            Some(i) => {
                proof {
                    lemma_assoc_get_at(self.chunks@, i as int);
                }
                let c = &self.chunks[i].1;
                let n = c.signs.len();
                let mut out: Vec<((i32, i32, i32, u8), Sign)> = Vec::new();
                let mut j: usize = 0;
                while j < n
                    invariant
                        0 <= j <= n,
                        n == c.signs@.len(),
                        out@.len() == j,
                        forall|a: int|
                            0 <= a < j ==> (#[trigger] out@[a]).0 == c.signs@[a].0 && out@[a].1@
                                == c.signs@[a].1@,
                    decreases n - j,
                {
                    let e = &c.signs[j];
                    out.push((e.0, Sign(e.1.0.clone())));
                    j += 1;
                }
                proof {
                    assert(out@.map_values(|e: ((i32, i32, i32, u8), Sign)| (e.0, e.1@))
                        =~= c.signs_seq());
                }
                Some(out)
            },
            None => {
                proof {
                    lemma_assoc_get_absent(self.chunks@, pq);
                }
                None
            },
        }
    }
}

/// Two association lists of equal length and pointwise equal keys find
/// the same keys, and what they find sits at the same index in both.
proof fn lemma_assoc_same_keys<K, V>(s1: Seq<(K, V)>, s2: Seq<(K, V)>, k: K)
    requires
        unique_keys(s1),
        s1.len() == s2.len(),
        forall|a: int| 0 <= a < s1.len() ==> (#[trigger] s1[a]).0 == (#[trigger] s2[a]).0,
    ensures
        assoc_get(s1, k) is Some <==> assoc_get(s2, k) is Some,
        assoc_get(s1, k) is Some ==> exists|i: int|
            0 <= i < s1.len() && (#[trigger] s1[i]).0 == k && assoc_get(s1, k) == Some(s1[i].1)
                && assoc_get(s2, k) == Some(s2[i].1),
{
    assert forall|a: int, b: int| 0 <= a < b < s2.len() implies (#[trigger] s2[a]).0 != (
    #[trigger] s2[b]).0 by {
        assert(s1[a].0 == s2[a].0);
        assert(s1[b].0 == s2[b].0);
    }
    if assoc_get(s1, k) is Some {
        lemma_assoc_get_some_index(s1, k);
        let i = choose|i: int|
            0 <= i < s1.len() && (#[trigger] s1[i]).0 == k && s1[i].1 == assoc_get(s1, k).unwrap();
        lemma_assoc_get_at(s1, i);
        lemma_assoc_get_at(s2, i);
        assert(s2[i].0 == k);
    } else {
        if assoc_get(s2, k) is Some {
            lemma_assoc_get_some_index(s2, k);
            let i = choose|i: int|
                0 <= i < s2.len() && (#[trigger] s2[i]).0 == k && s2[i].1 == assoc_get(
                    s2,
                    k,
                ).unwrap();
            lemma_assoc_get_at(s1, i);
        }
    }
}

/// Compute the in-chunk key of a global position, with the one-block
/// border offset.
fn local_of(global_pos: (i32, i32, i32), pq: (i32, i32)) -> (l: (u8, u8, u8))
    requires
        local_in_range(global_pos, pq),
    ensures
        l == local_key(global_pos, pq),
{
    let lx = (global_pos.0 as i64) - (pq.0 as i64) * 32 + 1;
    let lz = (global_pos.2 as i64) - (pq.1 as i64) * 32 + 1;
    (lx as u8, global_pos.1 as u8, lz as u8)
}

/// The local coordinates of a global position lie inside the chunk's
/// bordered span and the vertical byte range.
pub open spec fn local_in_range(global_pos: (i32, i32, i32), pq: (i32, i32)) -> bool {
    &&& 0 <= global_pos.0 - pq.0 * 32 + 1 <= 255
    &&& 0 <= global_pos.1 <= 255
    &&& 0 <= global_pos.2 - pq.1 * 32 + 1 <= 255
}

/// The in-chunk key of a global position.
pub open spec fn local_key(global_pos: (i32, i32, i32), pq: (i32, i32)) -> (u8, u8, u8) {
    (
        (global_pos.0 - pq.0 * 32 + 1) as u8,
        global_pos.1 as u8,
        (global_pos.2 - pq.1 * 32 + 1) as u8,
    )
}

/// Re-inserting a modified value under the same key: that key maps to the
/// new value, every other key is untouched, and uniqueness is kept.
proof fn lemma_reinsert<K, V>(pres: Seq<(K, V)>, i: int, nv: V, k2: K)
    requires
        unique_keys(pres),
        0 <= i < pres.len(),
    ensures
        unique_keys(pres.remove(i).push((pres[i].0, nv))),
        assoc_get(pres.remove(i).push((pres[i].0, nv)), k2) == if k2 == pres[i].0 {
            Some(nv)
        } else {
            assoc_get(pres, k2)
        },
{
    lemma_assoc_get_remove(pres, i, k2);
    lemma_assoc_get_push(pres.remove(i), pres[i].0, nv, k2);
    let t = pres.remove(i);
    assert(forall|a: int|
        0 <= a < t.len() ==> #[trigger] t[a] == if a < i {
            pres[a]
        } else {
            pres[a + 1]
        });
    assert(forall|a: int| 0 <= a < t.len() ==> (#[trigger] t[a]).0 != pres[i].0);
    let u = t.push((pres[i].0, nv));
    assert forall|a: int, b: int| 0 <= a < b < u.len() implies (#[trigger] u[a]).0 != (
    #[trigger] u[b]).0 by {
        if b < u.len() - 1 {
            assert(u[a] == t[a] && u[b] == t[b]);
        } else {
            assert(u[a] == t[a]);
            assert(u[b] == (pres[i].0, nv));
        }
    }
}

/// The chunk key containing a global `(x, z)` position.
pub open spec fn containing_chunk(x: int, z: int) -> (i32, i32) {
    (spec_chunked(x) as i32, spec_chunked(z) as i32)
}

/// Whether the step `(dx, dz)` away from `(x, z)` writes an overlap
/// copy: some axis is stepped, and every stepped axis crosses a chunk
/// boundary.
pub open spec fn writes_overlap(x: int, z: int, dx: int, dz: int) -> bool {
    &&& !(dx == 0 && dz == 0)
    &&& (dx == 0 || spec_chunked(x + dx) != spec_chunked(x))
    &&& (dz == 0 || spec_chunked(z + dz) != spec_chunked(z))
}

/// The neighbouring chunk key one step over.
pub open spec fn overlap_chunk(x: int, z: int, dx: int, dz: int) -> (i32, i32) {
    ((spec_chunked(x) + dx) as i32, (spec_chunked(z) + dz) as i32)
}

/// The chunk key written by the step `(dx, dz)`, when it writes at all.
pub open spec fn maybe_chunk(x: int, z: int, dx: int, dz: int) -> Seq<(i32, i32)> {
    if writes_overlap(x, z, dx, dz) {
        seq![overlap_chunk(x, z, dx, dz)]
    } else {
        Seq::empty()
    }
}

/// The chunk keys one block edit writes, authoritative chunk first, then
/// the crossing neighbours in row order.
pub open spec fn edit_chunks(x: int, z: int) -> Seq<(i32, i32)> {
    seq![containing_chunk(x, z)] + maybe_chunk(x, z, -1, -1) + maybe_chunk(x, z, -1, 0)
        + maybe_chunk(x, z, -1, 1) + maybe_chunk(x, z, 0, -1) + maybe_chunk(x, z, 0, 1)
        + maybe_chunk(x, z, 1, -1) + maybe_chunk(x, z, 1, 0) + maybe_chunk(x, z, 1, 1)
}

/// Whether `pq` is among the chunks one block edit writes.
pub open spec fn is_edit_chunk(x: int, z: int, pq: (i32, i32)) -> bool {
    ||| pq == containing_chunk(x, z)
    ||| exists|dx: int, dz: int|
        -1 <= dx <= 1 && -1 <= dz <= 1 && #[trigger] writes_overlap(x, z, dx, dz) && pq
            == overlap_chunk(x, z, dx, dz)
}

/// The block kind an edit records in the chunk containing `(x+dx, z+dz)`:
/// the kind itself in the authoritative chunk, its negation in a
/// neighbour.
pub open spec fn edit_value(x: int, z: int, dx: int, dz: int, w: i8) -> i8 {
    if spec_chunked(x + dx) == spec_chunked(x) && spec_chunked(z + dz) == spec_chunked(z) {
        w
    } else {
        (0 - w) as i8
    }
}

/// The command the step `(dx, dz)` queues, when it writes at all.
pub open spec fn maybe_cmd(xyz: (i32, i32, i32), w: i8, dx: int, dz: int) -> Seq<
    StoreCommandView,
> {
    if writes_overlap(xyz.0 as int, xyz.2 as int, dx, dz) {
        seq![
            (StoreCommandView::SetBlock {
                xyz,
                pq: overlap_chunk(xyz.0 as int, xyz.2 as int, dx, dz),
                w: (0 - w) as i8,
            }),
        ]
    } else {
        Seq::empty()
    }
}

/// The commands one block edit queues, authoritative write first.
pub open spec fn edit_cmds(xyz: (i32, i32, i32), w: i8) -> Seq<StoreCommandView> {
    seq![
        (StoreCommandView::SetBlock {
            xyz,
            pq: containing_chunk(xyz.0 as int, xyz.2 as int),
            w,
        }),
    ] + maybe_cmd(xyz, w, -1, -1) + maybe_cmd(xyz, w, -1, 0) + maybe_cmd(xyz, w, -1, 1)
        + maybe_cmd(xyz, w, 0, -1) + maybe_cmd(xyz, w, 0, 1) + maybe_cmd(xyz, w, 1, -1)
        + maybe_cmd(xyz, w, 1, 0) + maybe_cmd(xyz, w, 1, 1)
}

/// A world mutation awaiting durable storage.
pub enum StoreCommand {
    /// A block write, with its authoritative or overlap chunk key.
    SetBlock { xyz: (i32, i32, i32), pq: (i32, i32), block: Block },
    /// A sign write; empty text means deletion of that face.
    SetSign { xyz: (i32, i32, i32), face: u8, sign: Sign },
}

/// Spec-level image of a pending mutation.
pub enum StoreCommandView {
    SetBlock { xyz: (i32, i32, i32), pq: (i32, i32), w: i8 },
    SetSign { xyz: (i32, i32, i32), face: u8, text: Seq<char> },
}

impl View for StoreCommand {
    type V = StoreCommandView;

    open spec fn view(&self) -> StoreCommandView {
        match self {
            StoreCommand::SetBlock { xyz, pq, block } => StoreCommandView::SetBlock {
                xyz: *xyz,
                pq: *pq,
                w: block.0,
            },
            StoreCommand::SetSign { xyz, face, sign } => StoreCommandView::SetSign {
                xyz: *xyz,
                face: *face,
                text: sign@,
            },
        }
    }
}

/// Manages the in-memory world and the queue of mutations that the
/// persistence worker will apply to durable storage.
pub struct World {
    chunk_mgr: ChunkManager,
    pending: Vec<StoreCommand>,
}

impl World {
    /// The chunk map is well formed.
    pub closed spec fn wf(&self) -> bool {
        self.chunk_mgr.wf()
    }

    /// The in-memory chunk map.
    pub closed spec fn store(&self) -> ChunkManager {
        self.chunk_mgr
    }

    /// Whether a chunk exists under this key.
    pub closed spec fn has_chunk(&self, pq: (i32, i32)) -> bool {
        self.chunk_mgr.has_chunk(pq)
    }

    /// The block stored at a local position of a chunk, if any.
    pub closed spec fn block_at(&self, pq: (i32, i32), l: (u8, u8, u8)) -> Option<i8> {
        self.chunk_mgr.block_at(pq, l)
    }

    /// The sign stored under a global key in a chunk, if any.
    pub closed spec fn sign_at(&self, pq: (i32, i32), k: (i32, i32, i32, u8)) -> Option<Seq<char>> {
        self.chunk_mgr.sign_at(pq, k)
    }

    /// The light stored at a local position of a chunk, if any.
    pub closed spec fn light_at(&self, pq: (i32, i32), l: (u8, u8, u8)) -> Option<u8> {
        self.chunk_mgr.light_at(pq, l)
    }

    /// The block entries of a chunk, as plain values; empty when absent.
    pub closed spec fn blocks_list(&self, pq: (i32, i32)) -> Seq<((u8, u8, u8), i8)> {
        self.chunk_mgr.blocks_list(pq)
    }

    /// The sign entries of a chunk, as plain values; empty when absent.
    pub closed spec fn signs_list(&self, pq: (i32, i32)) -> Seq<((i32, i32, i32, u8), Seq<char>)> {
        self.chunk_mgr.signs_list(pq)
    }

    /// The queued mutations, oldest first.
    pub closed spec fn pending_list(&self) -> Seq<StoreCommandView> {
        self.pending@.map_values(|c: StoreCommand| c@)
    }

    /// Create a new, empty world manager with nothing pending.
    pub fn new() -> (w: World)
        ensures
            w.wf(),
            forall|pq: (i32, i32)| !w.has_chunk(pq),
            forall|pq: (i32, i32), l: (u8, u8, u8)| w.block_at(pq, l) is None,
            forall|pq: (i32, i32), k: (i32, i32, i32, u8)| w.sign_at(pq, k) is None,
            forall|pq: (i32, i32), l: (u8, u8, u8)| w.light_at(pq, l) is None,
            w.pending_list() == Seq::<StoreCommandView>::empty(),
    {
        let w = World { chunk_mgr: ChunkManager::new(), pending: Vec::new() };
        proof {
            assert(w.pending_list() =~= Seq::<StoreCommandView>::empty());
        }
        w
    }

    /// Set a block in the world with the given global coordinates. The
    /// chunk key is passed explicitly so overlap copies can land in a
    /// neighbouring chunk. Placing air also deletes every sign anchored
    /// at that position, in memory here and on disk through the queued
    /// command.
    pub fn set_block(&mut self, global_pos: (i32, i32, i32), pq: (i32, i32), block: Block)
        requires
            old(self).wf(),
            local_in_range(global_pos, pq),
        ensures
            final(self).wf(),
            forall|pq2: (i32, i32), l2: (u8, u8, u8)| #[trigger]
                final(self).block_at(pq2, l2) == if pq2 == pq && l2 == local_key(global_pos, pq) {
                    Some(block.0)
                } else {
                    old(self).block_at(pq2, l2)
                },
            forall|pq2: (i32, i32), k2: (i32, i32, i32, u8)| #[trigger]
                final(self).sign_at(pq2, k2) == if block.0 == 0 && k2.0 == global_pos.0 && k2.1
                    == global_pos.1 && k2.2 == global_pos.2 {
                    None::<Seq<char>>
                } else {
                    old(self).sign_at(pq2, k2)
                },
            forall|pq2: (i32, i32), l2: (u8, u8, u8)| #[trigger]
                final(self).light_at(pq2, l2) == old(self).light_at(pq2, l2),
            forall|pq2: (i32, i32)| #[trigger]
                final(self).has_chunk(pq2) == (old(self).has_chunk(pq2) || pq2 == pq),
            forall|pq2: (i32, i32)|
                pq2 != pq ==> #[trigger] final(self).blocks_list(pq2) == old(self).blocks_list(
                    pq2,
                ),
            forall|pq2: (i32, i32)| #[trigger]
                final(self).signs_list(pq2) == if block.0 == 0 {
                    prune_sign_listing(
                        old(self).signs_list(pq2),
                        global_pos.0,
                        global_pos.1,
                        global_pos.2,
                    )
                } else {
                    old(self).signs_list(pq2)
                },
            final(self).pending_list() == old(self).pending_list().push(
                (StoreCommandView::SetBlock { xyz: global_pos, pq, w: block.0 }),
            ),
    {
        let ghost oldpending = self.pending@;
        self.chunk_mgr.set_block(global_pos, pq, block);
        if block.is_air() {
            self.chunk_mgr.clear_signs_everywhere(global_pos.0, global_pos.1, global_pos.2);
        }
        self.pending.push(StoreCommand::SetBlock { xyz: global_pos, pq, block });
        proof {
            assert(self.pending_list() =~= oldpending.map_values(|c: StoreCommand| c@).push(
                (StoreCommandView::SetBlock { xyz: global_pos, pq, w: block.0 }),
            ));
        }
    }

    /// Record a block loaded from durable storage: the in-memory write
    /// alone, with nothing queued and no sign clearing.
    pub fn load_block(&mut self, global_pos: (i32, i32, i32), pq: (i32, i32), block: Block)
        requires
            old(self).wf(),
            local_in_range(global_pos, pq),
        ensures
            final(self).wf(),
            forall|pq2: (i32, i32), l2: (u8, u8, u8)| #[trigger]
                final(self).block_at(pq2, l2) == if pq2 == pq && l2 == local_key(global_pos, pq) {
                    Some(block.0)
                } else {
                    old(self).block_at(pq2, l2)
                },
            forall|pq2: (i32, i32), k2: (i32, i32, i32, u8)| #[trigger]
                final(self).sign_at(pq2, k2) == old(self).sign_at(pq2, k2),
            forall|pq2: (i32, i32), l2: (u8, u8, u8)| #[trigger]
                final(self).light_at(pq2, l2) == old(self).light_at(pq2, l2),
            forall|pq2: (i32, i32)| #[trigger]
                final(self).has_chunk(pq2) == (old(self).has_chunk(pq2) || pq2 == pq),
            forall|pq2: (i32, i32)|
                pq2 != pq ==> #[trigger] final(self).blocks_list(pq2) == old(self).blocks_list(
                    pq2,
                ),
            forall|pq2: (i32, i32)| #[trigger]
                final(self).signs_list(pq2) == old(self).signs_list(pq2),
            final(self).pending_list() == old(self).pending_list(),
    {
        self.chunk_mgr.set_block(global_pos, pq, block);
    }

    /// Set a sign in the world using absolute world coordinates and an
    /// explicit chunk key. Empty text deletes just that face's sign.
    pub fn set_sign(&mut self, global_pos: (i32, i32, i32), pq: (i32, i32), face: u8, sign: Sign)
        requires
            old(self).wf(),
        ensures
            final(self).wf(),
            forall|pq2: (i32, i32), k2: (i32, i32, i32, u8)| #[trigger]
                final(self).sign_at(pq2, k2) == if pq2 == pq && k2 == (
                global_pos.0,
                global_pos.1,
                global_pos.2,
                face,
                ) {
                    if sign@.len() == 0 {
                        None::<Seq<char>>
                    } else {
                        Some(sign@)
                    }
                } else {
                    old(self).sign_at(pq2, k2)
                },
            forall|pq2: (i32, i32), l2: (u8, u8, u8)| #[trigger]
                final(self).block_at(pq2, l2) == old(self).block_at(pq2, l2),
            forall|pq2: (i32, i32), l2: (u8, u8, u8)| #[trigger]
                final(self).light_at(pq2, l2) == old(self).light_at(pq2, l2),
            forall|pq2: (i32, i32)| #[trigger]
                final(self).has_chunk(pq2) == (old(self).has_chunk(pq2) || (pq2 == pq && sign@.len()
                    > 0)),
            forall|pq2: (i32, i32)| #[trigger]
                final(self).blocks_list(pq2) == old(self).blocks_list(pq2),
            forall|pq2: (i32, i32)|
                pq2 != pq ==> #[trigger] final(self).signs_list(pq2) == old(self).signs_list(
                    pq2,
                ),
            final(self).pending_list() == old(self).pending_list().push(
                (StoreCommandView::SetSign { xyz: global_pos, face, text: sign@ }),
            ),
    {
        let ghost oldpending = self.pending@;
        let ghost sgv = sign@;
        let k = (global_pos.0, global_pos.1, global_pos.2, face);
        let queued = StoreCommand::SetSign { xyz: global_pos, face, sign: Sign(sign.0.clone()) };
        if sign.0.as_str().is_empty() {
            self.chunk_mgr.remove_sign(pq, k);
        } else {
            self.chunk_mgr.set_sign(pq, k, sign);
        }
        self.pending.push(queued);
        proof {
            assert(self.pending_list() =~= oldpending.map_values(|c: StoreCommand| c@).push(
                (StoreCommandView::SetSign { xyz: global_pos, face, text: sgv }),
            ));
        }
    }

    /// Record a sign loaded from durable storage: the in-memory write
    /// alone, with nothing queued.
    pub fn load_sign(&mut self, global_pos: (i32, i32, i32), pq: (i32, i32), face: u8, sign: Sign)
        requires
            old(self).wf(),
        ensures
            final(self).wf(),
            forall|pq2: (i32, i32), k2: (i32, i32, i32, u8)| #[trigger]
                final(self).sign_at(pq2, k2) == if pq2 == pq && k2 == (
                global_pos.0,
                global_pos.1,
                global_pos.2,
                face,
                ) {
                    if sign@.len() == 0 {
                        None::<Seq<char>>
                    } else {
                        Some(sign@)
                    }
                } else {
                    old(self).sign_at(pq2, k2)
                },
            forall|pq2: (i32, i32), l2: (u8, u8, u8)| #[trigger]
                final(self).block_at(pq2, l2) == old(self).block_at(pq2, l2),
            forall|pq2: (i32, i32), l2: (u8, u8, u8)| #[trigger]
                final(self).light_at(pq2, l2) == old(self).light_at(pq2, l2),
            forall|pq2: (i32, i32)| #[trigger]
                final(self).blocks_list(pq2) == old(self).blocks_list(pq2),
            forall|pq2: (i32, i32)|
                pq2 != pq ==> #[trigger] final(self).signs_list(pq2) == old(self).signs_list(
                    pq2,
                ),
            final(self).pending_list() == old(self).pending_list(),
    {
        let k = (global_pos.0, global_pos.1, global_pos.2, face);
        if sign.0.as_str().is_empty() {
            self.chunk_mgr.remove_sign(pq, k);
        } else {
            self.chunk_mgr.set_sign(pq, k, sign);
        }
    }

    /// Set a light value in the world. Lights live in memory only; the
    /// durable store is not involved.
    pub fn set_light(&mut self, global_pos: (i32, i32, i32), pq: (i32, i32), light: Light)
        requires
            old(self).wf(),
            local_in_range(global_pos, pq),
        ensures
            final(self).wf(),
            forall|pq2: (i32, i32), l2: (u8, u8, u8)| #[trigger]
                final(self).light_at(pq2, l2) == if pq2 == pq && l2 == local_key(global_pos, pq) {
                    Some(light.0)
                } else {
                    old(self).light_at(pq2, l2)
                },
            forall|pq2: (i32, i32), l2: (u8, u8, u8)| #[trigger]
                final(self).block_at(pq2, l2) == old(self).block_at(pq2, l2),
            forall|pq2: (i32, i32), k2: (i32, i32, i32, u8)| #[trigger]
                final(self).sign_at(pq2, k2) == old(self).sign_at(pq2, k2),
            forall|pq2: (i32, i32)| #[trigger]
                final(self).blocks_list(pq2) == old(self).blocks_list(pq2),
            forall|pq2: (i32, i32)| #[trigger]
                final(self).signs_list(pq2) == old(self).signs_list(pq2),
            final(self).pending_list() == old(self).pending_list(),
    {
        self.chunk_mgr.set_light(global_pos, pq, light);
    }

    /// The blocks stored in the chunk with these `(p, q)` coordinates,
    /// or nothing when the chunk does not exist.
    pub fn blocks_in_chunk(&self, chunk: (i32, i32)) -> (r: Option<Vec<((u8, u8, u8), Block)>>)
        requires
            self.wf(),
        ensures
            r is Some <==> self.has_chunk(chunk),
            match r {
                Some(v) => {
                    &&& v@.map_values(|e: ((u8, u8, u8), Block)| (e.0, e.1.0)) == self.blocks_list(
                        chunk,
                    )
                    &&& forall|j: int|
                        0 <= j < v@.len() ==> {
                            &&& i32::MIN <= chunk.0 * 32 - 1 + (#[trigger] v@[j]).0.0 <= i32::MAX
                            &&& i32::MIN <= chunk.1 * 32 - 1 + v@[j].0.2 <= i32::MAX
                        }
                },
                None => self.blocks_list(chunk) == Seq::<((u8, u8, u8), i8)>::empty(),
            },
    {
        self.chunk_mgr.get_blocks(chunk)
    }

    /// The signs stored in the chunk with these coordinates, or nothing
    /// when the chunk does not exist.
    pub fn signs_in_chunk(&self, chunk: (i32, i32)) -> (r: Option<
        Vec<((i32, i32, i32, u8), Sign)>,
    >)
        requires
            self.wf(),
        ensures
            r is Some <==> self.has_chunk(chunk),
            match r {
                Some(v) => v@.map_values(|e: ((i32, i32, i32, u8), Sign)| (e.0, e.1@))
                    == self.signs_list(chunk),
                None => self.signs_list(chunk) == Seq::<((i32, i32, i32, u8), Seq<char>)>::empty(),
            },
    {
        self.chunk_mgr.get_signs(chunk)
    }

    /// Write one overlap copy if the step `(dx, dz)` crosses a chunk
    /// boundary; do nothing otherwise.
    fn overlap_step(&mut self, global_pos: (i32, i32, i32), p: i32, q: i32, dx: i32, dz: i32,
        wneg: i8) -> (wrote: bool)
        requires
            old(self).wf(),
            p == spec_chunked(global_pos.0 as int),
            q == spec_chunked(global_pos.2 as int),
            0 <= global_pos.1 <= 255,
            i32::MIN < global_pos.0 < i32::MAX,
            i32::MIN < global_pos.2 < i32::MAX,
            -1 <= dx <= 1,
            -1 <= dz <= 1,
            !(dx == 0 && dz == 0),
        ensures
            final(self).wf(),
            wrote == writes_overlap(global_pos.0 as int, global_pos.2 as int, dx as int, dz as int),
            ({
                let target = overlap_chunk(global_pos.0 as int, global_pos.2 as int, dx as int, dz as int);
                &&& forall|pq2: (i32, i32), l2: (u8, u8, u8)| #[trigger]
                    final(self).block_at(pq2, l2) == if wrote && pq2 == target && l2 == local_key(
                        global_pos,
                        target,
                    ) {
                        Some(wneg)
                    } else {
                        old(self).block_at(pq2, l2)
                    }
                &&& forall|pq2: (i32, i32), k2: (i32, i32, i32, u8)| #[trigger]
                    final(self).sign_at(pq2, k2) == if wrote && wneg == 0 && k2.0 == global_pos.0
                        && k2.1 == global_pos.1 && k2.2 == global_pos.2 {
                        None::<Seq<char>>
                    } else {
                        old(self).sign_at(pq2, k2)
                    }
                &&& forall|pq2: (i32, i32), l2: (u8, u8, u8)| #[trigger]
                    final(self).light_at(pq2, l2) == old(self).light_at(pq2, l2)
                &&& forall|pq2: (i32, i32)| #[trigger]
                    final(self).has_chunk(pq2) == (old(self).has_chunk(pq2) || (wrote && pq2
                        == target))
                &&& forall|pq2: (i32, i32)|
                    (!wrote || pq2 != target) ==> #[trigger] final(self).blocks_list(pq2) == old(
                        self,
                    ).blocks_list(pq2)
                &&& forall|pq2: (i32, i32)| #[trigger]
                    final(self).signs_list(pq2) == if wrote && wneg == 0 {
                        prune_sign_listing(
                            old(self).signs_list(pq2),
                            global_pos.0,
                            global_pos.1,
                            global_pos.2,
                        )
                    } else {
                        old(self).signs_list(pq2)
                    }
                &&& final(self).pending_list() == if wrote {
                    old(self).pending_list().push(
                        (StoreCommandView::SetBlock { xyz: global_pos, pq: target, w: wneg }),
                    )
                } else {
                    old(self).pending_list()
                }
            }),
    {
        let x = global_pos.0;
        let z = global_pos.2;
        proof {
            lemma_chunked_floor(x as int);
            lemma_chunked_floor(z as int);
            lemma_chunked_step(x as int);
            lemma_chunked_step(z as int);
        }
        let cross = (dx == 0 || chunked(x + dx) != p) && (dz == 0 || chunked(z + dz) != q);
        if cross {
            proof {
                assert(writes_overlap(x as int, z as int, dx as int, dz as int));
                // A crossing step lands exactly one chunk over, so the
                // bordered local coordinate is 0 or 33.
                assert(local_in_range(global_pos, ((p + dx) as i32, (q + dz) as i32)));
            }
            self.set_block(global_pos, (p + dx, q + dz), Block(wneg));
            true
        } else {
            proof {
                assert(!writes_overlap(x as int, z as int, dx as int, dz as int));
            }
            false
        }
    }

    /// Apply one block edit with the cross-chunk overlap rule: the
    /// authoritative chunk records `w` at the edited position, and every
    /// neighbouring chunk reached by stepping one block across a chunk
    /// boundary records the overlap copy `-w` at the same global
    /// position. Returns the chunk keys written, authoritative first.
    pub fn apply_block_edit(&mut self, x: i32, y: i32, z: i32, w: i8) -> (touched: Vec<(i32, i32)>)
        requires
            old(self).wf(),
            0 <= y <= 255,
            i32::MIN < x < i32::MAX,
            i32::MIN < z < i32::MAX,
            w != i8::MIN,
        ensures
            final(self).wf(),
            touched@ == edit_chunks(x as int, z as int),
            forall|dx: int, dz: int|
                -1 <= dx <= 1 && -1 <= dz <= 1 ==> #[trigger] final(self).block_at(
                    containing_chunk(x as int + dx, z as int + dz),
                    local_key((x, y, z), containing_chunk(x as int + dx, z as int + dz)),
                ) == Some(edit_value(x as int, z as int, dx, dz, w)),
            forall|pq2: (i32, i32), l2: (u8, u8, u8)|
                (!is_edit_chunk(x as int, z as int, pq2) || l2 != local_key((x, y, z), pq2))
                    ==> #[trigger] final(self).block_at(pq2, l2) == old(self).block_at(pq2, l2),
            forall|pq2: (i32, i32), k2: (i32, i32, i32, u8)| #[trigger]
                final(self).sign_at(pq2, k2) == if w == 0 && k2.0 == x && k2.1 == y && k2.2 == z {
                    None::<Seq<char>>
                } else {
                    old(self).sign_at(pq2, k2)
                },
            forall|pq2: (i32, i32), l2: (u8, u8, u8)| #[trigger]
                final(self).light_at(pq2, l2) == old(self).light_at(pq2, l2),
            forall|pq2: (i32, i32)|
                !is_edit_chunk(x as int, z as int, pq2) ==> #[trigger] final(self).blocks_list(
                    pq2,
                ) == old(self).blocks_list(pq2),
            forall|pq2: (i32, i32)| #[trigger]
                final(self).signs_list(pq2) == if w == 0 {
                    prune_sign_listing(old(self).signs_list(pq2), x, y, z)
                } else {
                    old(self).signs_list(pq2)
                },
            final(self).pending_list() == old(self).pending_list() + edit_cmds((x, y, z), w),
    {
        let ghost xi = x as int;
        let ghost zi = z as int;
        let ghost xyz = (x, y, z);
        let ghost base = old(self).pending_list();
        let p = chunked(x);
        let q = chunked(z);
        proof {
            lemma_chunked_floor(xi);
            lemma_chunked_floor(zi);
            assert(local_in_range((x, y, z), (p, q)));
        }
        let mut touched: Vec<(i32, i32)> = Vec::new();
        self.set_block((x, y, z), (p, q), Block(w));
        touched.push((p, q));
        let ghost cc = containing_chunk(xi, zi);
        let ghost auth_cmd = (StoreCommandView::SetBlock { xyz, pq: cc, w });
        proof {
            assert(cc == (p, q));
            assert(touched@ =~= seq![cc]);
            assert(self.pending_list() =~= base + seq![auth_cmd]);
        }
        let wneg: i8 = -w;
        proof {
            assert(wneg == (0 - w) as i8);
        }
        let w1 = self.overlap_step((x, y, z), p, q, -1, -1, wneg);
        if w1 {
            touched.push((p - 1, q - 1));
        }
        proof {
            assert(touched@ =~= seq![cc] + maybe_chunk(xi, zi, -1, -1));
            assert(self.pending_list() =~= base + (seq![auth_cmd] + maybe_cmd(xyz, w, -1, -1)));
        }
        let w2 = self.overlap_step((x, y, z), p, q, -1, 0, wneg);
        if w2 {
            touched.push((p - 1, q));
        }
        proof {
            assert(touched@ =~= seq![cc] + maybe_chunk(xi, zi, -1, -1) + maybe_chunk(
                xi,
                zi,
                -1,
                0,
            ));
            assert(self.pending_list() =~= base + (seq![auth_cmd] + maybe_cmd(xyz, w, -1, -1)
                + maybe_cmd(xyz, w, -1, 0)));
        }
        let w3 = self.overlap_step((x, y, z), p, q, -1, 1, wneg);
        if w3 {
            touched.push((p - 1, q + 1));
        }
        proof {
            assert(touched@ =~= seq![cc] + maybe_chunk(xi, zi, -1, -1) + maybe_chunk(xi, zi, -1, 0)
                + maybe_chunk(xi, zi, -1, 1));
            assert(self.pending_list() =~= base + (seq![auth_cmd] + maybe_cmd(xyz, w, -1, -1)
                + maybe_cmd(xyz, w, -1, 0) + maybe_cmd(xyz, w, -1, 1)));
        }
        let w4 = self.overlap_step((x, y, z), p, q, 0, -1, wneg);
        if w4 {
            touched.push((p, q - 1));
        }
        proof {
            assert(touched@ =~= seq![cc] + maybe_chunk(xi, zi, -1, -1) + maybe_chunk(xi, zi, -1, 0)
                + maybe_chunk(xi, zi, -1, 1) + maybe_chunk(xi, zi, 0, -1));
            assert(self.pending_list() =~= base + (seq![auth_cmd] + maybe_cmd(xyz, w, -1, -1)
                + maybe_cmd(xyz, w, -1, 0) + maybe_cmd(xyz, w, -1, 1) + maybe_cmd(xyz, w, 0, -1)));
        }
        let w5 = self.overlap_step((x, y, z), p, q, 0, 1, wneg);
        if w5 {
            touched.push((p, q + 1));
        }
        proof {
            assert(touched@ =~= seq![cc] + maybe_chunk(xi, zi, -1, -1) + maybe_chunk(xi, zi, -1, 0)
                + maybe_chunk(xi, zi, -1, 1) + maybe_chunk(xi, zi, 0, -1) + maybe_chunk(
                xi,
                zi,
                0,
                1,
            ));
            assert(self.pending_list() =~= base + (seq![auth_cmd] + maybe_cmd(xyz, w, -1, -1)
                + maybe_cmd(xyz, w, -1, 0) + maybe_cmd(xyz, w, -1, 1) + maybe_cmd(xyz, w, 0, -1)
                + maybe_cmd(xyz, w, 0, 1)));
        }
        let w6 = self.overlap_step((x, y, z), p, q, 1, -1, wneg);
        if w6 {
            touched.push((p + 1, q - 1));
        }
        proof {
            assert(touched@ =~= seq![cc] + maybe_chunk(xi, zi, -1, -1) + maybe_chunk(xi, zi, -1, 0)
                + maybe_chunk(xi, zi, -1, 1) + maybe_chunk(xi, zi, 0, -1) + maybe_chunk(xi, zi, 0, 1)
                + maybe_chunk(xi, zi, 1, -1));
            assert(self.pending_list() =~= base + (seq![auth_cmd] + maybe_cmd(xyz, w, -1, -1)
                + maybe_cmd(xyz, w, -1, 0) + maybe_cmd(xyz, w, -1, 1) + maybe_cmd(xyz, w, 0, -1)
                + maybe_cmd(xyz, w, 0, 1) + maybe_cmd(xyz, w, 1, -1)));
        }
        let w7 = self.overlap_step((x, y, z), p, q, 1, 0, wneg);
        if w7 {
            touched.push((p + 1, q));
        }
        proof {
            assert(touched@ =~= seq![cc] + maybe_chunk(xi, zi, -1, -1) + maybe_chunk(xi, zi, -1, 0)
                + maybe_chunk(xi, zi, -1, 1) + maybe_chunk(xi, zi, 0, -1) + maybe_chunk(xi, zi, 0, 1)
                + maybe_chunk(xi, zi, 1, -1) + maybe_chunk(xi, zi, 1, 0));
            assert(self.pending_list() =~= base + (seq![auth_cmd] + maybe_cmd(xyz, w, -1, -1)
                + maybe_cmd(xyz, w, -1, 0) + maybe_cmd(xyz, w, -1, 1) + maybe_cmd(xyz, w, 0, -1)
                + maybe_cmd(xyz, w, 0, 1) + maybe_cmd(xyz, w, 1, -1) + maybe_cmd(xyz, w, 1, 0)));
        }
        let w8 = self.overlap_step((x, y, z), p, q, 1, 1, wneg);
        if w8 {
            touched.push((p + 1, q + 1));
        }
        proof {
            assert(touched@ =~= edit_chunks(xi, zi));
            assert(self.pending_list() =~= base + edit_cmds(xyz, w));
            assert forall|pq2: (i32, i32)| true implies #[trigger] self.signs_list(pq2) == if w
                == 0 {
                prune_sign_listing(old(self).signs_list(pq2), x, y, z)
            } else {
                old(self).signs_list(pq2)
            } by {
                lemma_prune_listing_idempotent(old(self).signs_list(pq2), x, y, z);
            }
            assert forall|dx: int, dz: int| -1 <= dx <= 1 && -1 <= dz <= 1 implies #[trigger] self
                .block_at(
                containing_chunk(xi + dx, zi + dz),
                local_key(xyz, containing_chunk(xi + dx, zi + dz)),
            ) == Some(edit_value(xi, zi, dx, dz, w)) by {
                lemma_chunked_step(xi);
                lemma_chunked_step(zi);
                let cpq = containing_chunk(xi + dx, zi + dz);
                let rdx = spec_chunked(xi + dx) - spec_chunked(xi);
                let rdz = spec_chunked(zi + dz) - spec_chunked(zi);
                assert(rdx == 0 || rdx == dx);
                assert(rdz == 0 || rdz == dz);
                if rdx == 0 && rdz == 0 {
                    assert(cpq == (p, q));
                } else {
                    assert(writes_overlap(xi, zi, rdx, rdz));
                    assert(cpq == overlap_chunk(xi, zi, rdx, rdz));
                }
            }
        }
        touched
    }

    /// The block listing and the block point query of a chunk agree:
    /// listed keys are unique, each listed entry is what the point query
    /// finds under its key, and every key the point query finds is
    /// listed with its value. The listing is thereby determined by the
    /// point queries, up to order.
    pub proof fn lemma_blocks_listing(&self, pq: (i32, i32))
        requires
            self.wf(),
        ensures
            forall|i: int, j: int|
                0 <= i < j < self.blocks_list(pq).len() ==> (#[trigger] self.blocks_list(pq)[i]).0
                    != (#[trigger] self.blocks_list(pq)[j]).0,
            forall|i: int|
                0 <= i < self.blocks_list(pq).len() ==> #[trigger] self.block_at(
                    pq,
                    self.blocks_list(pq)[i].0,
                ) == Some(self.blocks_list(pq)[i].1),
            forall|l: (u8, u8, u8)|
                #[trigger] self.block_at(pq, l) is Some ==> exists|i: int|
                    0 <= i < self.blocks_list(pq).len() && #[trigger] self.blocks_list(pq)[i] == (
                    l,
                    self.block_at(pq, l).unwrap(),
                    ),
    {
        if assoc_get(self.chunk_mgr.chunks@, pq) is Some {
            lemma_assoc_get_some_index(self.chunk_mgr.chunks@, pq);
            let a = choose|a: int|
                0 <= a < self.chunk_mgr.chunks@.len() && (#[trigger] self.chunk_mgr.chunks@[a]).0
                    == pq && self.chunk_mgr.chunks@[a].1 == assoc_get(
                    self.chunk_mgr.chunks@,
                    pq,
                ).unwrap();
            let c = self.chunk_mgr.chunks@[a].1;
            assert(c.wf());
            assert forall|i: int, j: int| 0 <= i < j < self.blocks_list(pq).len() implies (
            #[trigger] self.blocks_list(pq)[i]).0 != (#[trigger] self.blocks_list(pq)[j]).0 by {
                assert(self.blocks_list(pq)[i].0 == c.blocks@[i].0);
                assert(self.blocks_list(pq)[j].0 == c.blocks@[j].0);
            }
            assert forall|i: int| 0 <= i < self.blocks_list(pq).len() implies #[trigger] self
                .block_at(pq, self.blocks_list(pq)[i].0) == Some(self.blocks_list(pq)[i].1) by {
                assert(self.blocks_list(pq)[i] == (c.blocks@[i].0, c.blocks@[i].1.0));
                lemma_assoc_get_at(c.blocks@, i);
            }
            assert forall|l: (u8, u8, u8)| #[trigger] self.block_at(pq, l) is Some implies exists|
                i: int,
            |
                0 <= i < self.blocks_list(pq).len() && #[trigger] self.blocks_list(pq)[i] == (
                l,
                self.block_at(pq, l).unwrap(),
                ) by {
                lemma_assoc_get_some_index(c.blocks@, l);
                let i = choose|i: int|
                    0 <= i < c.blocks@.len() && (#[trigger] c.blocks@[i]).0 == l && c.blocks@[i].1
                        == assoc_get(c.blocks@, l).unwrap();
                assert(self.blocks_list(pq)[i] == (l, self.block_at(pq, l).unwrap()));
            }
        }
    }

    /// The sign listing and the sign point query of a chunk agree, in
    /// the same way as the block listing.
    pub proof fn lemma_signs_listing(&self, pq: (i32, i32))
        requires
            self.wf(),
        ensures
            forall|i: int, j: int|
                0 <= i < j < self.signs_list(pq).len() ==> (#[trigger] self.signs_list(pq)[i]).0
                    != (#[trigger] self.signs_list(pq)[j]).0,
            forall|i: int|
                0 <= i < self.signs_list(pq).len() ==> #[trigger] self.sign_at(
                    pq,
                    self.signs_list(pq)[i].0,
                ) == Some(self.signs_list(pq)[i].1),
            forall|k: (i32, i32, i32, u8)|
                #[trigger] self.sign_at(pq, k) is Some ==> exists|i: int|
                    0 <= i < self.signs_list(pq).len() && #[trigger] self.signs_list(pq)[i] == (
                    k,
                    self.sign_at(pq, k).unwrap(),
                    ),
    {
        if assoc_get(self.chunk_mgr.chunks@, pq) is Some {
            lemma_assoc_get_some_index(self.chunk_mgr.chunks@, pq);
            let a = choose|a: int|
                0 <= a < self.chunk_mgr.chunks@.len() && (#[trigger] self.chunk_mgr.chunks@[a]).0
                    == pq && self.chunk_mgr.chunks@[a].1 == assoc_get(
                    self.chunk_mgr.chunks@,
                    pq,
                ).unwrap();
            let c = self.chunk_mgr.chunks@[a].1;
            assert(c.wf());
            assert forall|i: int, j: int| 0 <= i < j < self.signs_list(pq).len() implies (
            #[trigger] self.signs_list(pq)[i]).0 != (#[trigger] self.signs_list(pq)[j]).0 by {
                assert(self.signs_list(pq)[i].0 == c.signs@[i].0);
                assert(self.signs_list(pq)[j].0 == c.signs@[j].0);
            }
            assert forall|i: int| 0 <= i < self.signs_list(pq).len() implies #[trigger] self
                .sign_at(pq, self.signs_list(pq)[i].0) == Some(self.signs_list(pq)[i].1) by {
                assert(self.signs_list(pq)[i] == (c.signs@[i].0, c.signs@[i].1@));
                lemma_assoc_get_at(c.signs@, i);
            }
            assert forall|k: (i32, i32, i32, u8)| #[trigger] self.sign_at(pq, k) is Some implies
                exists|i: int|
                0 <= i < self.signs_list(pq).len() && #[trigger] self.signs_list(pq)[i] == (
                k,
                self.sign_at(pq, k).unwrap(),
                ) by {
                lemma_assoc_get_some_index(c.signs@, k);
                let i = choose|i: int|
                    0 <= i < c.signs@.len() && (#[trigger] c.signs@[i]).0 == k && c.signs@[i].1
                        == assoc_get(c.signs@, k).unwrap();
                assert(self.signs_list(pq)[i] == (k, self.sign_at(pq, k).unwrap()));
            }
        }
    }

    /// Placing air wipes an anchor's signs from every chunk listing:
    /// when no sign keyed at `(x, y, z)` is stored under `pq`, the sign
    /// listing of `pq` holds no entry anchored there. Together with
    /// `set_block`, air at a position leaves no trace of its signs.
    pub proof fn lemma_cleared_anchor_not_listed(&self, pq: (i32, i32), x: i32, y: i32, z: i32)
        requires
            self.wf(),
            forall|k2: (i32, i32, i32, u8)|
                (k2.0 == x && k2.1 == y && k2.2 == z) ==> #[trigger] self.sign_at(pq, k2) is None,
        ensures
            forall|i: int|
                0 <= i < self.signs_list(pq).len() ==> !((#[trigger] self.signs_list(pq)[i]).0.0
                    == x && self.signs_list(pq)[i].0.1 == y && self.signs_list(pq)[i].0.2 == z),
    {
        if assoc_get(self.chunk_mgr.chunks@, pq) is Some {
            lemma_assoc_get_some_index(self.chunk_mgr.chunks@, pq);
            let a = choose|a: int|
                0 <= a < self.chunk_mgr.chunks@.len() && (#[trigger] self.chunk_mgr.chunks@[a]).0
                    == pq && self.chunk_mgr.chunks@[a].1 == assoc_get(
                    self.chunk_mgr.chunks@,
                    pq,
                ).unwrap();
            let c = self.chunk_mgr.chunks@[a].1;
            assert(c.wf());
            assert forall|i: int|
                0 <= i < self.signs_list(pq).len() implies !((#[trigger] self.signs_list(
                pq,
            )[i]).0.0 == x && self.signs_list(pq)[i].0.1 == y && self.signs_list(pq)[i].0.2
                == z) by {
                assert(self.signs_list(pq)[i].0 == c.signs@[i].0);
                lemma_assoc_get_at(c.signs@, i);
                assert(self.sign_at(pq, c.signs@[i].0) is Some);
            }
        }
    }

    /// Hand the queued mutations to the persistence worker, leaving the
    /// queue empty and the world untouched.
    pub fn drain_pending(&mut self) -> (cmds: Vec<StoreCommand>)
        ensures
            final(self).wf() == old(self).wf(),
            final(self).store() == old(self).store(),
            final(self).pending_list() == Seq::<StoreCommandView>::empty(),
            cmds@.map_values(|c: StoreCommand| c@) == old(self).pending_list(),
    {
        let mut out: Vec<StoreCommand> = Vec::new();
        core::mem::swap(&mut out, &mut self.pending);
        proof {
            assert(self.pending_list() =~= Seq::<StoreCommandView>::empty());
        }
        out
    }
}

} // verus!

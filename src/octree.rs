use vstd::prelude::*;
use crate::svec::copy_vec;
use vstd::multiset::Multiset;
use crate::geometry::{COORD_LIMIT, Point, Plane, Frustum, in_cube, plane_admits, frustum_admits, plane_admits_cube};
use crate::svec::SVec;

verus! {

broadcast use {vstd::multiset::group_multiset_axioms, vstd::seq_lib::group_to_multiset_ensures};

/// Half-extent of the root octant. The root is centred on the origin, so it
/// spans every position whose coordinates lie within `COORD_LIMIT`: a point
/// never falls outside the tree, and the root never has to grow.
pub const BASE_EXTENSION: i64 = 2147483648;

/// A discovered surface point.
#[derive(Clone, Copy, Debug, PartialEq, Eq, Structural)]
pub struct Mark {
    pub pos: Point,
}

/// What an octant holds: the indices of its eight children, or a bucket of marks.
pub enum Content {
    Parent([usize; 8]),
    Leaf(Vec<Mark>),
}

/// A cube of the partition, with center `center` and half-extent `extension`.
pub struct Octant {
    pub center: Point,
    pub extension: i64,
    pub content: Content,
}

/// A bucketed octree whose octants live in one flat array and refer to
/// their children by index.
pub struct Octree {
    root: usize,
    bucket_size: u32,
    octants: Vec<Octant>,
}

/// `e` is a positive power of two.
pub open spec fn is_pow2(e: int) -> bool
    decreases e,
{
    if e <= 0 {
        false
    } else if e == 1 {
        true
    } else {
        e % 2 == 0 && is_pow2(e / 2)
    }
}

/// Whether child `k` lies on the positive side of its parent's center on `axis`.
pub open spec fn positive_side(k: int, axis: int) -> bool {
    if axis == 0 {
        k % 2 == 1
    } else if axis == 1 {
        (k / 2) % 2 == 1
    } else {
        (k / 4) % 2 == 1
    }
}

/// The index of the child of an octant centred on `c` that `p` falls in: one
/// bit per axis, set where `p` is on the positive side of `c`.
pub open spec fn child_slot(c: Point, p: Point) -> int {
    (if p.x >= c.x { 1int } else { 0int }) + (if p.y >= c.y { 2int } else { 0int }) + (if p.z
        >= c.z {
        4int
    } else {
        0int
    })
}

pub open spec fn shift(v: i64, h: int, up: bool) -> i64 {
    if up {
        (v + h) as i64
    } else {
        (v - h) as i64
    }
}

/// The center of child `k` of an octant centred on `c` whose children have
/// half-extent `h`.
pub open spec fn child_center(c: Point, h: int, k: int) -> Point {
    Point {
        x: shift(c.x, h, positive_side(k, 0)),
        y: shift(c.y, h, positive_side(k, 1)),
        z: shift(c.z, h, positive_side(k, 2)),
    }
}

/// The cube of an octant lies within the root's cube.
pub open spec fn within_world(c: Point, e: int) -> bool {
    &&& -BASE_EXTENSION <= c.x - e
    &&& c.x + e <= BASE_EXTENSION
    &&& -BASE_EXTENSION <= c.y - e
    &&& c.y + e <= BASE_EXTENSION
    &&& -BASE_EXTENSION <= c.z - e
    &&& c.z + e <= BASE_EXTENSION
}

/// The marks of a leaf, as a sequence; empty for a parent.
pub open spec fn leaf_seq(o: Octant) -> Seq<Mark> {
    match o.content {
        Content::Leaf(v) => v@,
        Content::Parent(_) => Seq::empty(),
    }
}

/// All the marks stored in the octants `s`.
pub open spec fn marks_of(s: Seq<Octant>) -> Multiset<Mark>
    decreases s.len(),
{
    if s.len() == 0 {
        Multiset::empty()
    } else {
        marks_of(s.drop_last()).add(leaf_seq(s.last()).to_multiset())
    }
}

/// The index of child `k` of octant `o`; -1 for a leaf.
pub open spec fn child_at(o: Octant, k: int) -> int {
    match o.content {
        Content::Parent(ch) => ch@[k] as int,
        Content::Leaf(_) => -1,
    }
}

/// Some parent among `s` lists octant `i` as a child.
pub open spec fn has_parent(s: Seq<Octant>, i: int) -> bool {
    exists|j: int, k: int| 0 <= j < s.len() && 0 <= k < 8 && #[trigger] child_at(s[j], k) == i
}

/// Octant `i` of `s` is well formed: its cube is a power-of-two cube within
/// the world; a parent's children are its eight half-size sub-cubes; a leaf
/// holds only marks of its own cube, and no more than `b` of them unless its
/// cube can no longer be split.
pub open spec fn octant_wf(s: Seq<Octant>, i: int, b: int) -> bool {
    let o = s[i];
    &&& 1 <= o.extension
    &&& is_pow2(o.extension as int)
    &&& within_world(o.center, o.extension as int)
    &&& match o.content {
        Content::Parent(ch) => {
            &&& o.extension >= 2
            &&& forall|k: int|
                0 <= k < 8 ==> {
                    &&& #[trigger] ch@[k] < s.len()
                    &&& s[ch@[k] as int].center == child_center(
                        o.center,
                        o.extension / 2,
                        k,
                    )
                    &&& s[ch@[k] as int].extension == o.extension / 2
                }
        },
        Content::Leaf(v) => {
            &&& (v@.len() <= b || o.extension == 1)
            &&& forall|j: int|
                0 <= j < v@.len() ==> in_cube(o.center, o.extension as int, #[trigger] v@[j].pos)
        },
    }
}

impl Octree {
    pub closed spec fn octants_view(&self) -> Seq<Octant> {
        self.octants@
    }

    pub closed spec fn root_index(&self) -> int {
        self.root as int
    }

    pub closed spec fn bucket(&self) -> int {
        self.bucket_size as int
    }

    /// All the marks the tree holds.
    pub open spec fn marks(&self) -> Multiset<Mark> {
        marks_of(self.octants_view())
    }

    pub open spec fn wf(&self) -> bool {
        let s = self.octants_view();
        &&& 0 <= self.root_index() < s.len()
        &&& self.bucket() >= 1
        &&& s[self.root_index()].center == (Point { x: 0, y: 0, z: 0 })
        &&& s[self.root_index()].extension == BASE_EXTENSION
        &&& forall|i: int| 0 <= i < s.len() ==> #[trigger] octant_wf(s, i, self.bucket())
        &&& forall|i: int| 0 <= i < s.len() && i != self.root_index() ==> #[trigger] has_parent(s, i)
        &&& self.marks().len() <= usize::MAX
    }

    /// The octant array can take the octants of one more insertion: every
    /// split on the way down adds eight.
    pub open spec fn has_room(&self) -> bool {
        self.octants_view().len() + 8 * 32 <= usize::MAX
    }

    /// An empty tree whose leaves hold up to `bucket_size` marks each.
    pub fn new(bucket_size: u32) -> (r: Octree)
        requires
            bucket_size >= 1,
        ensures
            r.wf(),
            r.marks() == Multiset::<Mark>::empty(),
            r.bucket() == bucket_size,
            r.octants_view().len() == 1,
    {
        let mut octants: Vec<Octant> = Vec::new();
        octants.push(
            Octant {
                center: Point { x: 0, y: 0, z: 0 },
                extension: BASE_EXTENSION,
                content: Content::Leaf(Vec::new()),
            },
        );
        let r = Octree { root: 0, bucket_size, octants };
        proof {
            lemma_base_extension_pow2();
            let s = r.octants@;
            assert(s.drop_last() =~= Seq::<Octant>::empty());
            assert(leaf_seq(s[0]) =~= Seq::<Mark>::empty());
            assert(marks_of(s.drop_last()) == Multiset::<Mark>::empty());
            assert(leaf_seq(s.last()).to_multiset().len() == 0);
            vstd::multiset::lemma_multiset_empty_len(leaf_seq(s.last()).to_multiset());
            assert(marks_of(s) =~= Multiset::<Mark>::empty());
            assert(octant_wf(s, 0, bucket_size as int));
        }
        r
    }

    /// The number of marks the tree holds.
    pub fn count(&self) -> (r: usize)
        requires
            self.wf(),
        ensures
            r == self.marks().len(),
    {
        let mut sum: usize = 0;
        let mut i: usize = 0;
        while i < self.octants.len()
            invariant
                self.wf(),
                i <= self.octants@.len(),
                sum == marks_of(self.octants@.subrange(0, i as int)).len(),
            decreases self.octants@.len() - i,
        {
            proof {
                lemma_marks_prefix_le(self.octants@, i as int + 1);
                let pre = self.octants@.subrange(0, i as int + 1);
                assert(pre.drop_last() =~= self.octants@.subrange(0, i as int));
            }
            match &self.octants[i].content {
                Content::Leaf(data) => {
                    sum = sum + data.len();
                },
                Content::Parent(_) => {},
            }
            i = i + 1;
        }
        proof {
            assert(self.octants@.subrange(0, i as int) =~= self.octants@);
        }
        sum
    }

    /// Adds `mark` to the tree. The tree descends from the root by the side of
    /// each octant's center the mark falls on; a full leaf is split into its
    /// eight half-size sub-cubes, its marks shared among them, and the descent
    /// goes on. A leaf whose cube cannot be halved any more takes the mark
    /// even when full.
    pub fn insert(&mut self, mark: Mark)
        requires
            old(self).wf(),
            mark.pos.in_bounds(),
            old(self).marks().len() < usize::MAX,
            old(self).has_room(),
        ensures
            final(self).wf(),
            final(self).marks() == old(self).marks().insert(mark),
            final(self).bucket() == old(self).bucket(),
            final(self).octants_view().len() <= old(self).octants_view().len() + 8 * 31,
            final(self).root_index() == old(self).root_index(),
            final(self).octants_view().len() >= old(self).octants_view().len(),
            forall|j: int|
                0 <= j < old(self).octants_view().len() ==> (#[trigger] final(self).octants_view()[j]).center
                    == old(self).octants_view()[j].center && final(self).octants_view()[j].extension
                    == old(self).octants_view()[j].extension,
    {
        let mut id = self.root;
        proof {
            assert(octant_wf(self.octants@, id as int, self.bucket()));
            vstd::arithmetic::power2::lemma2_to64();
            lemma_depth_left_pow2(31);
        }
        loop
            invariant
                self.wf(),
                self.marks() == old(self).marks(),
                self.bucket() == old(self).bucket(),
                mark.pos.in_bounds(),
                old(self).marks().len() < usize::MAX,
                id < self.octants@.len(),
                in_cube(
                    self.octants@[id as int].center,
                    self.octants@[id as int].extension as int,
                    mark.pos,
                ),
                self.octants@.len() + 8 * depth_left(self.octants@[id as int].extension as int)
                    <= old(self).octants@.len() + 8 * 31,
                old(self).octants@.len() + 8 * 32 <= usize::MAX,
                self.root_index() == old(self).root_index(),
                self.octants_view().len() >= old(self).octants_view().len(),
                forall|j: int|
                    0 <= j < old(self).octants_view().len() ==> (#[trigger] self.octants_view()[j]).center
                        == old(self).octants_view()[j].center && self.octants_view()[j].extension
                        == old(self).octants_view()[j].extension,
            decreases self.octants@[id as int].extension,
        {
            proof {
                assert(octant_wf(self.octants@, id as int, self.bucket()));
            }
            let center = self.octants[id].center;
            let ext = self.octants[id].extension;
            let mut action: u8 = 0;
            let mut child: usize = 0;
            match &self.octants[id].content {
                Content::Parent(children) => {
                    let k = child_index(&center, &mark.pos);
                    proof {
                        lemma_child_contains(center, ext as int, mark.pos);
                        assert(children@[k as int] < self.octants@.len());
                    }
                    action = 1;
                    child = children[k];
                },
                Content::Leaf(data) => {
                    if data.len() < self.bucket_size as usize || ext == 1 {
                        action = 0;
                    } else {
                        action = 2;
                    }
                },
            }
            proof {
                lemma_depth_left_nonneg(ext as int);
            }
            if action == 0 {
                self.push_to_leaf(id, mark);
                return ;
            } else if action == 1 {
                id = child;
            } else {
                let children = self.split(id);
                let k = child_index(&center, &mark.pos);
                proof {
                    lemma_child_contains(center, ext as int, mark.pos);
                    assert(octant_wf(self.octants@, id as int, self.bucket()));
                    assert(children@[k as int] < self.octants@.len());
                }
                id = children[k];
            }
        }
    }

    /// Appends `mark` to the leaf `id`, which contains it.
    fn push_to_leaf(&mut self, id: usize, mark: Mark)
        requires
            old(self).wf(),
            id < old(self).octants@.len(),
            old(self).octants@[id as int].content is Leaf,
            in_cube(
                old(self).octants@[id as int].center,
                old(self).octants@[id as int].extension as int,
                mark.pos,
            ),
            leaf_seq(old(self).octants@[id as int]).len() < old(self).bucket()
                || old(self).octants@[id as int].extension == 1,
            old(self).marks().len() < usize::MAX,
        ensures
            final(self).wf(),
            final(self).marks() == old(self).marks().insert(mark),
            final(self).bucket() == old(self).bucket(),
            final(self).octants_view().len() == old(self).octants_view().len(),
            final(self).root_index() == old(self).root_index(),
            final(self).octants_view().len() >= old(self).octants_view().len(),
            forall|j: int|
                0 <= j < old(self).octants_view().len() ==> (#[trigger] final(self).octants_view()[j]).center
                    == old(self).octants_view()[j].center && final(self).octants_view()[j].extension
                    == old(self).octants_view()[j].extension,
    {
        let ghost s = self.octants@;
        let ghost b = self.bucket();
        let center = self.octants[id].center;
        let ext = self.octants[id].extension;
        let mut data = match &self.octants[id].content {
            Content::Leaf(d) => copy_vec(d),
            Content::Parent(_) => Vec::new(),
        };
        data.push(mark);
        self.octants.set(id, Octant { center, extension: ext, content: Content::Leaf(data) });
        proof {
            let s2 = self.octants@;
            assert(s2 == s.update(id as int, s2[id as int]));
            lemma_marks_update(s, id as int, s2[id as int]);
            assert(leaf_seq(s2[id as int]) == leaf_seq(s[id as int]).push(mark));
            let old_ms = leaf_seq(s[id as int]).to_multiset();
            assert(leaf_seq(s2[id as int]).to_multiset() == old_ms.insert(mark));
            assert(marks_of(s).add(old_ms.insert(mark)) =~= marks_of(s).insert(mark).add(old_ms));
            lemma_cancel(marks_of(s2), marks_of(s).insert(mark), old_ms);
            assert(octant_wf(s, id as int, b));
            assert forall|i: int| 0 <= i < s2.len() implies #[trigger] octant_wf(s2, i, b) by {
                assert(octant_wf(s, i, b));
                if i != id {
                    lemma_wf_frame(s, s2, b, i);
                }
            }
            assert forall|i: int| 0 <= i < s2.len() && i != self.root_index() implies #[trigger] has_parent(s2, i) by {
                assert(has_parent(s, i));
                let (j, k) = choose|j: int, k: int| 0 <= j < s.len() && 0 <= k < 8 && #[trigger] child_at(s[j], k) == i;
                assert(j != id);
                assert(child_at(s2[j], k) == i);
            }
        }
    }

    /// Turns the full leaf `id` into a parent of eight new leaves, its
    /// half-size sub-cubes, among which its marks are shared by position.
    fn split(&mut self, id: usize) -> (children: [usize; 8])
        requires
            old(self).wf(),
            id < old(self).octants@.len(),
            old(self).octants@[id as int].content is Leaf,
            old(self).octants@[id as int].extension >= 2,
            old(self).octants@.len() + 8 <= usize::MAX,
        ensures
            final(self).wf(),
            final(self).marks() == old(self).marks(),
            final(self).bucket() == old(self).bucket(),
            final(self).octants@.len() == old(self).octants@.len() + 8,
            final(self).octants@[id as int].center == old(self).octants@[id as int].center,
            final(self).octants@[id as int].extension == old(self).octants@[id as int].extension,
            final(self).octants@[id as int].content == Content::Parent(children),
            final(self).root_index() == old(self).root_index(),
            final(self).octants_view().len() >= old(self).octants_view().len(),
            forall|j: int|
                0 <= j < old(self).octants_view().len() ==> (#[trigger] final(self).octants_view()[j]).center
                    == old(self).octants_view()[j].center && final(self).octants_view()[j].extension
                    == old(self).octants_view()[j].extension,
    {
        let ghost s = self.octants@;
        let ghost b = self.bucket();
        proof {
            assert(octant_wf(s, id as int, b));
        }
        let center = self.octants[id].center;
        let ext = self.octants[id].extension;
        let half = ext / 2;
        let data = match &self.octants[id].content {
            Content::Leaf(d) => copy_vec(d),
            Content::Parent(_) => Vec::new(),
        };
        let ghost d = data@;
        let base = self.octants.len();
        let mut children: [usize; 8] = [0; 8];
        let mut k: usize = 0;
        while k < 8
            invariant
                0 <= k <= 8,
                d == leaf_seq(s[id as int]),
                data@ == d,
                base == s.len(),
                center == s[id as int].center,
                ext == s[id as int].extension,
                half == ext / 2,
                ext >= 2,
                is_pow2(ext as int),
                within_world(center, ext as int),
                d.len() <= b,
                forall|j: int| 0 <= j < d.len() ==> in_cube(center, ext as int, #[trigger] d[j].pos),
                self.octants@.len() == base + k,
                base + 8 <= usize::MAX,
                self.octants@.subrange(0, base as int) == s,
                self.bucket() == b,
                self.root_index() == old(self).root_index(),
                marks_of(self.octants@) == marks_of(s).add(parts_sum(d, center, k as int)),
                forall|j: int| 0 <= j < k ==> children@[j] == base + j,
                forall|j: int|
                    0 <= j < k ==> {
                        let o = #[trigger] self.octants@[base + j];
                        &&& o.center == child_center(center, half as int, j)
                        &&& o.extension == half
                        &&& o.content is Leaf
                        &&& leaf_seq(o) == part(d, center, j)
                    },
            decreases 8 - k,
        {
            let c = child_center_of(&center, half, k);
            let v = part_of(&data, &center, k);
            let ghost before = self.octants@;
            self.octants.push(Octant { center: c, extension: half, content: Content::Leaf(v) });
            proof {
                let after = self.octants@;
                assert(after.drop_last() == before);
                assert(after.subrange(0, base as int) =~= s) by {
                    assert(before.subrange(0, base as int) == s);
                }
                assert(marks_of(after) == marks_of(before).add(part(d, center, k as int).to_multiset()));
                assert(marks_of(after) =~= marks_of(s).add(parts_sum(d, center, k as int + 1)));
            }
            children[k] = base + k;
            k = k + 1;
        }
        let ghost s1 = self.octants@;
        self.octants.set(id, Octant { center, extension: ext, content: Content::Parent(children) });
        proof {
            let s2 = self.octants@;
            assert(s1.subrange(0, base as int) == s);
            assert forall|j: int| 0 <= j < base implies s1[j] == s[j] by {
                assert(s1.subrange(0, base as int)[j] == s1[j]);
            }
            assert(s2 == s1.update(id as int, s2[id as int]));
            lemma_parts_sum_all(d, center);
            lemma_marks_update(s1, id as int, s2[id as int]);
            lemma_empty_to_multiset(leaf_seq(s2[id as int]));
            assert(s1[id as int] == s[id as int]);
            assert(marks_of(s1) == marks_of(s).add(d.to_multiset()));
            assert(marks_of(s1).add(Multiset::<Mark>::empty()) =~= marks_of(s1));
            lemma_cancel(marks_of(s2), marks_of(s), d.to_multiset());
            assert forall|i: int| 0 <= i < s2.len() implies #[trigger] octant_wf(s2, i, b) by {
                if i < base && i != id {
                    assert(octant_wf(s, i, b));
                    assert(s1[i] == s[i]);
                    lemma_wf_frame(s, s2, b, i);
                } else if i == id {
                    assert(is_pow2(ext as int));
                    assert forall|k: int| 0 <= k < 8 implies {
                        &&& #[trigger] children@[k] < s2.len()
                        &&& s2[children@[k] as int].center == child_center(center, ext / 2, k)
                        &&& s2[children@[k] as int].extension == ext / 2
                    } by {
                        assert(s2[base + k] == s1[base + k]);
                    }
                } else {
                    let j = i - base;
                    assert(s2[i] == s1[base + j]);
                    lemma_child_geometry(center, ext as int, j);
                    lemma_pow2_half(ext as int);
                    lemma_part_members(d, center, j);
                    assert forall|m: int| 0 <= m < leaf_seq(s2[i]).len() implies in_cube(
                        s2[i].center,
                        s2[i].extension as int,
                        #[trigger] leaf_seq(s2[i])[m].pos,
                    ) by {
                        let x = part(d, center, j)[m];
                        assert(child_slot(center, part(d, center, j)[m].pos) == j);
                        let q = choose|q: int| 0 <= q < d.len() && d[q] == x;
                        assert(in_cube(center, ext as int, d[q].pos));
                        lemma_child_contains(center, ext as int, x.pos);
                        assert(child_slot(center, x.pos) == j);
                    }
                    lemma_part_len(d, center, j);
                }
            }
            assert forall|i: int| 0 <= i < s2.len() && i != self.root_index() implies #[trigger] has_parent(s2, i) by {
                if i < base {
                    assert(has_parent(s, i));
                    let (j, k) = choose|j: int, k: int| 0 <= j < s.len() && 0 <= k < 8 && #[trigger] child_at(s[j], k) == i;
                    assert(j != id);
                    assert(s2[j] == s1[j]);
                    assert(s1[j] == s[j]);
                    assert(child_at(s2[j], k) == i);
                } else {
                    assert(child_at(s2[id as int], i - base) == i);
                }
            }
        }
        children
    }

    /// Fills `out`, cleared first, with the marks visible from `pos` through
    /// `frustum`: octants that fail the frustum test are skipped with all
    /// they hold, children are visited farthest first, and filling stops
    /// once `out` is full.
    pub fn get_visible<const N: usize>(&self, out: &mut SVec<Mark, N>, pos: Point, frustum: &Frustum)
        requires
            self.wf(),
            old(out).wf(),
            pos.in_bounds(),
        ensures
            final(out).wf(),
            final(out)@ == capped(
                visible_seq(self.octants_view(), self.root_index(), pos, *frustum),
                N as int,
            ),
    {
        out.clear();
        self.get_visible_rec(out, self.root, pos, frustum);
        assert(Seq::<Mark>::empty() + visible_seq(self.octants@, self.root as int, pos, *frustum)
            =~= visible_seq(self.octants@, self.root as int, pos, *frustum));
    }

    fn get_visible_rec<const N: usize>(
        &self,
        out: &mut SVec<Mark, N>,
        id: usize,
        pos: Point,
        frustum: &Frustum,
    )
        requires
            self.wf(),
            old(out).wf(),
            id < self.octants_view().len(),
            pos.in_bounds(),
        ensures
            final(out).wf(),
            final(out)@ == capped(
                old(out)@ + visible_seq(self.octants_view(), id as int, pos, *frustum),
                N as int,
            ),
        decreases self.octants_view()[id as int].extension,
    {
        let ghost s = self.octants@;
        let ghost vis = visible_seq(s, id as int, pos, *frustum);
        proof {
            assert(octant_wf(s, id as int, self.bucket()));
        }
        if out.len() == out.capacity() {
            assert(capped(out@ + vis, N as int) =~= out@);
            return ;
        }
        let center = self.octants[id].center;
        let ext = self.octants[id].extension;
        if !admits_all(frustum, &center, ext) {
            assert(out@ + vis =~= out@);
            return ;
        }
        match &self.octants[id].content {
            Content::Leaf(data) => {
                let ghost out0 = out@;
                let mut i: usize = 0;
                while i < data.len()
                    invariant
                        out.wf(),
                        out0.len() <= N,
                        i <= data@.len(),
                        out@ == capped(out0 + data@.take(i as int), N as int),
                    decreases data@.len() - i,
                {
                    let ghost before = out@;
                    let pushed = out.push(data[i]);
                    proof {
                        lemma_capped_append(out0, data@.take(i as int), seq![data@[i as int]], N as int);
                        assert(data@.take(i as int) + seq![data@[i as int]] =~= data@.take(i as int + 1));
                        assert(out0 + data@.take(i as int) + seq![data@[i as int]] =~= out0 + data@.take(i as int + 1));
                        if pushed {
                            assert(out@ =~= before + seq![data@[i as int]]);
                            assert(capped(before + seq![data@[i as int]], N as int) =~= before + seq![data@[i as int]]);
                        } else {
                            assert(capped(before + seq![data@[i as int]], N as int) =~= before);
                        }
                    }
                    i = i + 1;
                }
                assert(data@.take(i as int) =~= data@);
            },
            Content::Parent(children) => {
                let ghost ch = *children;
                let children = *children;
                let mut d: [i128; 8] = [0; 8];
                let mut k: usize = 0;
                while k < 8
                    invariant
                        self.wf(),
                        s == self.octants@,
                        0 <= k <= 8,
                        children == ch,
                        octant_wf(s, id as int, self.bucket()),
                        s[id as int].content == Content::Parent(ch),
                        pos.in_bounds(),
                        forall|j: int| 0 <= j < k ==> d@[j] == child_dists(s, ch, pos)[j],
                    decreases 8 - k,
                {
                    let c = children[k];
                    proof {
                        assert(ch@[k as int] < s.len());
                        assert(octant_wf(s, c as int, self.bucket()));
                    }
                    d[k] = dist2_wide(&self.octants[c].center, &pos);
                    k = k + 1;
                }
                assert(d@.map_values(|x: i128| x as int) =~= child_dists(s, ch, pos));
                let order = far_order_of(&d);
                let ghost out0 = out@;
                let mut j: usize = 0;
                while j < 8
                    invariant
                        self.wf(),
                        s == self.octants@,
                        0 <= j <= 8,
                        children == ch,
                        octant_wf(s, id as int, self.bucket()),
                        s[id as int].content == Content::Parent(ch),
                        ext == s[id as int].extension,
                        pos.in_bounds(),
                        out.wf(),
                        out0.len() <= N,
                        forall|q: int| 0 <= q < 8 ==> order@[q] < 8,
                        order@.map_values(|q: usize| q as int) == far_order(child_dists(s, ch, pos)),
                        out@ == capped(
                            out0 + children_seq(
                                s,
                                ch,
                                far_order(child_dists(s, ch, pos)),
                                ext as int,
                                pos,
                                *frustum,
                                j as int,
                            ),
                            N as int,
                        ),
                    decreases 8 - j,
                {
                    let c = children[order[j]];
                    let ghost before = out@;
                    proof {
                        assert(order@.map_values(|q: usize| q as int)[j as int] == order@[j as int] as int);
                        assert(ch@[order@[j as int] as int] < s.len());
                    }
                    self.get_visible_rec(out, c, pos, frustum);
                    proof {
                        let fo = far_order(child_dists(s, ch, pos));
                        let prev = children_seq(s, ch, fo, ext as int, pos, *frustum, j as int);
                        assert(fo[j as int] == order@[j as int] as int);
                        lemma_capped_append(out0, prev, visible_seq(s, c as int, pos, *frustum), N as int);
                        assert(out0 + prev + visible_seq(s, c as int, pos, *frustum) =~= out0 + children_seq(
                            s,
                            ch,
                            fo,
                            ext as int,
                            pos,
                            *frustum,
                            j as int + 1,
                        ));
                    }
                    j = j + 1;
                }
            },
        }
    }

    /// Adds a mark at `pos` where the tree can take it: `pos` lies within
    /// the coordinate bounds, and neither the mark count nor the octant
    /// array is at its limit. Otherwise the point is dropped and the tree
    /// left as it was. Returns whether the mark was added.
    pub fn try_insert(&mut self, pos: Point) -> (r: bool)
        requires
            old(self).wf(),
        ensures
            final(self).wf(),
            r == (pos.in_bounds() && old(self).marks().len() < usize::MAX && old(self).has_room()),
            r ==> final(self).marks() == old(self).marks().insert(Mark { pos }),
            !r ==> *final(self) == *old(self),
    {
        let inside = -COORD_LIMIT <= pos.x && pos.x <= COORD_LIMIT && -COORD_LIMIT <= pos.y && pos.y
            <= COORD_LIMIT && -COORD_LIMIT <= pos.z && pos.z <= COORD_LIMIT;
        if !inside || self.count() == usize::MAX || self.octants.len() > usize::MAX - 8 * 32 {
            return false;
        }
        self.insert(Mark { pos });
        true
    }

    /// The index of the root octant.
    pub fn root(&self) -> (r: usize)
        ensures
            r == self.root_index(),
    {
        self.root
    }

    /// The number of octants in the array.
    pub fn octant_count(&self) -> (r: usize)
        ensures
            r == self.octants_view().len(),
    {
        self.octants.len()
    }

    /// The children of octant `id`, or `None` where it is a leaf.
    pub fn children(&self, id: usize) -> (r: Option<[usize; 8]>)
        requires
            id < self.octants_view().len(),
        ensures
            r == match self.octants_view()[id as int].content {
                Content::Parent(ch) => Some(ch),
                Content::Leaf(_) => None::<[usize; 8]>,
            },
    {
        match &self.octants[id].content {
            Content::Parent(ch) => Some(*ch),
            Content::Leaf(_) => None,
        }
    }
}

proof fn lemma_pow2_is_pow2(n: nat)
    ensures
        is_pow2(vstd::arithmetic::power2::pow2(n) as int),
    decreases n,
{
    vstd::arithmetic::power2::lemma_pow2_pos(n);
    if n > 0 {
        vstd::arithmetic::power2::lemma_pow2_unfold(n);
        lemma_pow2_is_pow2((n - 1) as nat);
        vstd::arithmetic::power2::lemma_pow2_pos((n - 1) as nat);
    } else {
        vstd::arithmetic::power2::lemma2_to64();
    }
}

proof fn lemma_base_extension_pow2()
    ensures
        is_pow2(BASE_EXTENSION as int),
{
    vstd::arithmetic::power2::lemma2_to64();
    lemma_pow2_is_pow2(31);
}

/// Squared distance between two points.
pub open spec fn dist2(a: Point, b: Point) -> int {
    (a.x - b.x) * (a.x - b.x) + (a.y - b.y) * (a.y - b.y) + (a.z - b.z) * (a.z - b.z)
}

/// Among the first `i` entries of `d` not yet `used`, the index of the
/// largest, the first one on ties; -1 if there is none.
pub open spec fn best_upto(d: Seq<int>, used: Seq<bool>, i: int) -> int
    decreases i,
{
    if i <= 0 {
        -1
    } else {
        let b = best_upto(d, used, i - 1);
        if used[i - 1] {
            b
        } else if b == -1 || d[i - 1] > d[b] {
            i - 1
        } else {
            b
        }
    }
}

/// The first `n` picks of a selection of the eight entries of `d` from the
/// largest down, with the entries picked so far.
pub open spec fn selection(d: Seq<int>, n: int) -> (Seq<int>, Seq<bool>)
    decreases n,
{
    if n <= 0 {
        (Seq::empty(), Seq::new(8, |k: int| false))
    } else {
        let (order, used) = selection(d, n - 1);
        let b = best_upto(d, used, 8);
        let pick = if b == -1 { 0 } else { b };
        (order.push(pick), used.update(pick, true))
    }
}

/// The eight child slots, farthest first.
pub open spec fn far_order(d: Seq<int>) -> Seq<int> {
    selection(d, 8).0
}

/// The squared distances from `pos` to the centers of the children `ch`.
pub open spec fn child_dists(s: Seq<Octant>, ch: [usize; 8], pos: Point) -> Seq<int> {
    Seq::new(8, |k: int| dist2(s[ch@[k] as int].center, pos))
}

/// The octant's cube passes the frustum test.
pub open spec fn octant_admitted(s: Seq<Octant>, id: int, f: Frustum) -> bool {
    frustum_admits(f, s[id].center, s[id].extension as int)
}

/// The marks that a visibility query from `pos` gathers under octant `id`,
/// in order, before any cap: nothing where the octant fails the frustum
/// test; a leaf's marks; for a parent, what its children gather, farthest
/// child first.
pub open spec fn visible_seq(s: Seq<Octant>, id: int, pos: Point, f: Frustum) -> Seq<Mark>
    decreases (if 0 <= id < s.len() { s[id].extension as int } else { 0 }), 9int,
{
    if !(0 <= id < s.len()) || s[id].extension < 0 || !octant_admitted(s, id, f) {
        Seq::empty()
    } else {
        match s[id].content {
            Content::Leaf(v) => v@,
            Content::Parent(ch) => children_seq(
                s,
                ch,
                far_order(child_dists(s, ch, pos)),
                s[id].extension as int,
                pos,
                f,
                8,
            ),
        }
    }
}

/// What the first `n` children in `order` gather, in turn.
pub open spec fn children_seq(
    s: Seq<Octant>,
    ch: [usize; 8],
    order: Seq<int>,
    pe: int,
    pos: Point,
    f: Frustum,
    n: int,
) -> Seq<Mark>
    decreases pe, n,
{
    if n <= 0 || pe < 0 {
        Seq::empty()
    } else {
        let c = ch@[order[n - 1]] as int;
        let rest = children_seq(s, ch, order, pe, pos, f, n - 1);
        if 0 <= c < s.len() && 0 <= s[c].extension < pe {
            rest + visible_seq(s, c, pos, f)
        } else {
            rest
        }
    }
}

/// `s` cut to its first `n` elements.
pub open spec fn capped(s: Seq<Mark>, n: int) -> Seq<Mark> {
    if s.len() <= n {
        s
    } else {
        s.take(n)
    }
}

proof fn lemma_capped_append(a: Seq<Mark>, b: Seq<Mark>, c: Seq<Mark>, n: int)
    requires
        a.len() <= n,
    ensures
        capped(capped(a + b, n) + c, n) =~= capped(a + b + c, n),
{
    if (a + b).len() > n {
        assert(capped(a + b, n) + c =~= (a + b + c).take(n) + c);
        assert((a + b + c).take(n) =~= (a + b).take(n));
    } else {
        assert(a + b + c =~= (a + b) + c);
    }
}

/// `p` is contained in the child of the cube `(c, e)` that `child_slot` picks.
proof fn lemma_child_contains(c: Point, e: int, p: Point)
    requires
        in_cube(c, e, p),
        e >= 2,
        is_pow2(e),
        within_world(c, e),
    ensures
        in_cube(child_center(c, e / 2, child_slot(c, p)), e / 2, p),
{
    let k = child_slot(c, p);
    assert(positive_side(k, 0) == (p.x >= c.x));
    assert(positive_side(k, 1) == (p.y >= c.y));
    assert(positive_side(k, 2) == (p.z >= c.z));
}

/// A child cube lies within its parent's, hence within the world.
proof fn lemma_child_geometry(c: Point, e: int, k: int)
    requires
        e >= 2,
        is_pow2(e),
        within_world(c, e),
        0 <= k < 8,
    ensures
        within_world(child_center(c, e / 2, k), e / 2),
        e / 2 >= 1,
{
}

proof fn lemma_pow2_half(e: int)
    requires
        e >= 2,
        is_pow2(e),
    ensures
        is_pow2(e / 2),
        e % 2 == 0,
{
}

/// Octant `i` stays well formed when the octants around it keep their
/// cubes and the array only grows.
proof fn lemma_wf_frame(s: Seq<Octant>, s2: Seq<Octant>, b: int, i: int)
    requires
        0 <= i < s.len() <= s2.len(),
        octant_wf(s, i, b),
        s2[i] == s[i],
        forall|j: int|
            0 <= j < s.len() ==> #[trigger] s2[j].center == s[j].center && s2[j].extension
                == s[j].extension,
    ensures
        octant_wf(s2, i, b),
{
    match s[i].content {
        Content::Parent(ch) => {
            assert forall|k: int| 0 <= k < 8 implies {
                &&& #[trigger] ch@[k] < s2.len()
                &&& s2[ch@[k] as int].center == child_center(s[i].center, s[i].extension / 2, k)
                &&& s2[ch@[k] as int].extension == s[i].extension / 2
            } by {
                assert(ch@[k] < s.len());
                assert(s2[ch@[k] as int].center == s[ch@[k] as int].center);
            }
        },
        Content::Leaf(_) => {},
    }
}

/// Replacing one octant exchanges its marks for those of the new one.
proof fn lemma_marks_update(s: Seq<Octant>, i: int, o: Octant)
    requires
        0 <= i < s.len(),
    ensures
        marks_of(s.update(i, o)).add(leaf_seq(s[i]).to_multiset()) =~= marks_of(s).add(
            leaf_seq(o).to_multiset(),
        ),
    decreases s.len(),
{
    let s2 = s.update(i, o);
    assert(s2.last() == if i == s.len() - 1 { o } else { s.last() });
    let ms_old = leaf_seq(s[i]).to_multiset();
    let ms_new = leaf_seq(o).to_multiset();
    let last2 = leaf_seq(s2.last()).to_multiset();
    let last1 = leaf_seq(s.last()).to_multiset();
    assert(marks_of(s2) == marks_of(s2.drop_last()).add(last2));
    assert(marks_of(s) == marks_of(s.drop_last()).add(last1));
    if i == s.len() - 1 {
        assert(s2.drop_last() =~= s.drop_last());
        let m = marks_of(s.drop_last());
        assert forall|x: Mark|
            marks_of(s2).add(ms_old).count(x) == marks_of(s).add(ms_new).count(x) by {
            vstd::multiset::axiom_multiset_add(marks_of(s2), ms_old, x);
            vstd::multiset::axiom_multiset_add(marks_of(s), ms_new, x);
            vstd::multiset::axiom_multiset_add(m, last2, x);
            vstd::multiset::axiom_multiset_add(m, last1, x);
        }
    } else {
        let t = s.drop_last();
        assert(s2.drop_last() =~= t.update(i, o));
        assert(t[i] == s[i]);
        lemma_marks_update(t, i, o);
        let m2 = marks_of(t.update(i, o));
        let m1 = marks_of(t);
        assert(last2 == last1);
        assert forall|x: Mark|
            marks_of(s2).add(ms_old).count(x) == marks_of(s).add(ms_new).count(x) by {
            vstd::multiset::axiom_multiset_add(marks_of(s2), ms_old, x);
            vstd::multiset::axiom_multiset_add(marks_of(s), ms_new, x);
            vstd::multiset::axiom_multiset_add(m2, last2, x);
            vstd::multiset::axiom_multiset_add(m1, last1, x);
            vstd::multiset::axiom_multiset_add(m2, ms_old, x);
            vstd::multiset::axiom_multiset_add(m1, ms_new, x);
        }
    }
}

proof fn lemma_cancel(a: Multiset<Mark>, b: Multiset<Mark>, c: Multiset<Mark>)
    requires
        a.add(c) == b.add(c),
    ensures
        a == b,
{
    assert forall|x: Mark| a.count(x) == b.count(x) by {
        vstd::multiset::axiom_multiset_add(a, c, x);
        vstd::multiset::axiom_multiset_add(b, c, x);
        assert(a.add(c).count(x) == b.add(c).count(x));
    }
    assert(a =~= b);
}

proof fn lemma_empty_to_multiset(s: Seq<Mark>)
    requires
        s.len() == 0,
    ensures
        s.to_multiset() == Multiset::<Mark>::empty(),
{
    assert(s.to_multiset().len() == 0);
    vstd::multiset::lemma_multiset_empty_len(s.to_multiset());
}

/// The number of times a cube of half-extent `e` can still be halved.
pub open spec fn depth_left(e: int) -> int
    decreases e,
{
    if e <= 1 {
        0
    } else {
        1 + depth_left(e / 2)
    }
}

proof fn lemma_depth_left_nonneg(e: int)
    ensures
        depth_left(e) >= 0,
        e >= 2 ==> depth_left(e) == 1 + depth_left(e / 2),
    decreases e,
{
    if e > 1 {
        lemma_depth_left_nonneg(e / 2);
    }
}

proof fn lemma_depth_left_pow2(n: nat)
    ensures
        depth_left(vstd::arithmetic::power2::pow2(n) as int) == n,
    decreases n,
{
    vstd::arithmetic::power2::lemma_pow2_pos(n);
    if n > 0 {
        vstd::arithmetic::power2::lemma_pow2_unfold(n);
        lemma_depth_left_pow2((n - 1) as nat);
        vstd::arithmetic::power2::lemma_pow2_pos((n - 1) as nat);
    } else {
        vstd::arithmetic::power2::lemma2_to64();
    }
}

/// The marks of `s` whose position falls in child `k` of a cube centred on `c`.
pub open spec fn part(s: Seq<Mark>, c: Point, k: int) -> Seq<Mark>
    decreases s.len(),
{
    if s.len() == 0 {
        Seq::empty()
    } else if child_slot(c, s.last().pos) == k {
        part(s.drop_last(), c, k).push(s.last())
    } else {
        part(s.drop_last(), c, k)
    }
}

/// The marks of the first `n` parts of `s`.
pub open spec fn parts_sum(s: Seq<Mark>, c: Point, n: int) -> Multiset<Mark>
    decreases n,
{
    if n <= 0 {
        Multiset::empty()
    } else {
        parts_sum(s, c, n - 1).add(part(s, c, n - 1).to_multiset())
    }
}

proof fn lemma_part_len(s: Seq<Mark>, c: Point, k: int)
    ensures
        part(s, c, k).len() <= s.len(),
    decreases s.len(),
{
    if s.len() > 0 {
        lemma_part_len(s.drop_last(), c, k);
    }
}

/// Every member of a part is a mark of `s` that falls in that child.
proof fn lemma_part_members(s: Seq<Mark>, c: Point, k: int)
    ensures
        forall|m: int|
            0 <= m < part(s, c, k).len() ==> child_slot(c, #[trigger] part(s, c, k)[m].pos) == k
                && exists|q: int| 0 <= q < s.len() && s[q] == part(s, c, k)[m],
    decreases s.len(),
{
    if s.len() > 0 {
        let t = s.drop_last();
        lemma_part_members(t, c, k);
        assert forall|m: int| 0 <= m < part(s, c, k).len() implies child_slot(
            c,
            #[trigger] part(s, c, k)[m].pos,
        ) == k && exists|q: int| 0 <= q < s.len() && s[q] == part(s, c, k)[m] by {
            if m < part(t, c, k).len() {
                assert(part(s, c, k)[m] == part(t, c, k)[m]);
                assert(child_slot(c, part(t, c, k)[m].pos) == k);
                let q = choose|q: int| 0 <= q < t.len() && t[q] == part(t, c, k)[m];
                assert(s[q] == part(s, c, k)[m]);
            } else {
                assert(s[s.len() - 1] == part(s, c, k)[m]);
            }
        }
    }
}

/// Adding one mark to `s` adds it to the parts sum when its child is counted.
proof fn lemma_parts_sum_push(s: Seq<Mark>, c: Point, x: Mark, n: int)
    requires
        0 <= n <= 8,
    ensures
        parts_sum(s.push(x), c, n) =~= if child_slot(c, x.pos) < n {
            parts_sum(s, c, n).insert(x)
        } else {
            parts_sum(s, c, n)
        },
    decreases n,
{
    let s2 = s.push(x);
    assert(s2.drop_last() =~= s);
    if n > 0 {
        lemma_parts_sum_push(s, c, x, n - 1);
    }
}

/// The eight parts of `s` together hold exactly the marks of `s`.
proof fn lemma_parts_sum_all(s: Seq<Mark>, c: Point)
    ensures
        parts_sum(s, c, 8) =~= s.to_multiset(),
    decreases s.len(),
{
    if s.len() == 0 {
        assert(parts_sum(s, c, 0) =~= Multiset::<Mark>::empty());
        assert(parts_sum(s, c, 8) =~= Multiset::<Mark>::empty()) by {
            reveal_with_fuel(parts_sum, 9);
        }
        assert(s.to_multiset().len() == 0);
        vstd::multiset::lemma_multiset_empty_len(s.to_multiset());
    } else {
        let t = s.drop_last();
        lemma_parts_sum_all(t, c);
        lemma_parts_sum_push(t, c, s.last(), 8);
        assert(t.push(s.last()) =~= s);
    }
}

/// Whether the cube `(c, e)` passes the test of every plane of `f`.
fn admits_all(f: &Frustum, c: &Point, e: i64) -> (r: bool)
    requires
        1 <= e,
        within_world(*c, e as int),
    ensures
        r == frustum_admits(*f, *c, e as int),
{
    let mut i: usize = 0;
    while i < 6
        invariant
            0 <= i <= 6,
            1 <= e,
            within_world(*c, e as int),
            forall|j: int| 0 <= j < i ==> plane_admits(#[trigger] f@[j], *c, e as int),
        decreases 6 - i,
    {
        if !plane_admits_cube(&f[i], c, e) {
            return false;
        }
        i = i + 1;
    }
    true
}

/// The squared distance between a point of the world and a position.
fn dist2_wide(a: &Point, b: &Point) -> (r: i128)
    requires
        -BASE_EXTENSION <= a.x <= BASE_EXTENSION,
        -BASE_EXTENSION <= a.y <= BASE_EXTENSION,
        -BASE_EXTENSION <= a.z <= BASE_EXTENSION,
        b.in_bounds(),
    ensures
        r == dist2(*a, *b),
{
    let dx = a.x as i128 - b.x as i128;
    let dy = a.y as i128 - b.y as i128;
    let dz = a.z as i128 - b.z as i128;
    proof {
        crate::geometry::lemma_mul_abs_le(dx as int, dx as int, 0x1_0000_0000, 0x1_0000_0000);
        crate::geometry::lemma_mul_abs_le(dy as int, dy as int, 0x1_0000_0000, 0x1_0000_0000);
        crate::geometry::lemma_mul_abs_le(dz as int, dz as int, 0x1_0000_0000, 0x1_0000_0000);
    }
    dx * dx + dy * dy + dz * dz
}

/// The eight slots of `d`, from the largest entry down, the first slot
/// first on ties.
fn far_order_of(d: &[i128; 8]) -> (r: [usize; 8])
    ensures
        r@.map_values(|q: usize| q as int) == far_order(d@.map_values(|x: i128| x as int)),
        forall|q: int| 0 <= q < 8 ==> r@[q] < 8,
{
    let ghost di = d@.map_values(|x: i128| x as int);
    let mut used: [bool; 8] = [false; 8];
    let mut r: [usize; 8] = [0; 8];
    let mut n: usize = 0;
    while n < 8
        invariant
            0 <= n <= 8,
            di == d@.map_values(|x: i128| x as int),
            selection(di, n as int).1 == used@,
            selection(di, n as int).0 == r@.subrange(0, n as int).map_values(|q: usize| q as int),
            forall|q: int| 0 <= q < n ==> r@[q] < 8,
        decreases 8 - n,
    {
        let mut best: usize = 8;
        let mut i: usize = 0;
        while i < 8
            invariant
                0 <= i <= 8,
                di == d@.map_values(|x: i128| x as int),
                best <= 8,
                best < 8 ==> best < i,
                best_upto(di, used@, i as int) == (if best == 8 { -1 } else { best as int }),
            decreases 8 - i,
        {
            if !used[i] {
                if best == 8 || d[i] > d[best] {
                    best = i;
                }
            }
            i = i + 1;
        }
        let pick = if best == 8 {
            0
        } else {
            best
        };
        proof {
            let prev = r@.subrange(0, n as int).map_values(|q: usize| q as int);
            let next = r@.update(n as int, pick).subrange(0, n as int + 1).map_values(|q: usize| q as int);
            assert(next =~= prev.push(pick as int));
        }
        r[n] = pick;
        used[pick] = true;
        n = n + 1;
    }
    assert(r@.subrange(0, 8) =~= r@);
    r
}

/// The marks of `v` that fall in child `k` of a cube centred on `c`, in order.
fn part_of(v: &Vec<Mark>, c: &Point, k: usize) -> (r: Vec<Mark>)
    ensures
        r@ == part(v@, *c, k as int),
{
    let mut r: Vec<Mark> = Vec::new();
    let mut i: usize = 0;
    while i < v.len()
        invariant
            i <= v@.len(),
            r@ == part(v@.subrange(0, i as int), *c, k as int),
        decreases v@.len() - i,
    {
        proof {
            let pre = v@.subrange(0, i as int + 1);
            assert(pre.drop_last() =~= v@.subrange(0, i as int));
            assert(pre.last() == v@[i as int]);
        }
        if child_index(c, &v[i].pos) == k {
            r.push(v[i]);
        }
        i = i + 1;
    }
    assert(v@.subrange(0, i as int) =~= v@);
    r
}

/// The child of a cube centred on `c` that `p` falls in.
fn child_index(c: &Point, p: &Point) -> (k: usize)
    ensures
        k == child_slot(*c, *p),
        k < 8,
{
    let mut k: usize = 0;
    if p.x >= c.x {
        k = k + 1;
    }
    if p.y >= c.y {
        k = k + 2;
    }
    if p.z >= c.z {
        k = k + 4;
    }
    k
}

/// The center of child `k` of a cube centred on `c`, for children of half-extent `h`.
fn child_center_of(c: &Point, h: i64, k: usize) -> (r: Point)
    requires
        k < 8,
        h >= 1,
        within_world(*c, 2 * h),
    ensures
        r == child_center(*c, h as int, k as int),
{
    let x = if k % 2 == 1 {
        c.x + h
    } else {
        c.x - h
    };
    let y = if (k / 2) % 2 == 1 {
        c.y + h
    } else {
        c.y - h
    };
    let z = if (k / 4) % 2 == 1 {
        c.z + h
    } else {
        c.z - h
    };
    Point { x, y, z }
}

/// The marks of a prefix are no more than those of the whole.
proof fn lemma_marks_prefix_le(s: Seq<Octant>, n: int)
    requires
        0 <= n <= s.len(),
    ensures
        marks_of(s.subrange(0, n)).len() <= marks_of(s).len(),
    decreases s.len(),
{
    if n < s.len() {
        assert(s.drop_last().subrange(0, n) =~= s.subrange(0, n));
        lemma_marks_prefix_le(s.drop_last(), n);
    } else {
        assert(s.subrange(0, n) =~= s);
    }
}

/// The mark lies in a leaf whose cube passes the frustum test.
pub open spec fn in_admitted_leaf(s: Seq<Octant>, m: Mark, f: Frustum) -> bool {
    exists|j: int|
        0 <= j < s.len() && octant_admitted(s, j, f) && #[trigger] leaf_seq(s[j]).contains(m)
}

/// A visibility query never returns a mark whose leaf fails the frustum
/// test, nor more marks than the buffer holds.
pub proof fn lemma_visible_marks_admitted(s: Seq<Octant>, id: int, pos: Point, f: Frustum, cap: int)
    requires
        cap >= 0,
    ensures
        capped(visible_seq(s, id, pos, f), cap).len() <= cap,
        forall|i: int|
            0 <= i < capped(visible_seq(s, id, pos, f), cap).len() ==> in_admitted_leaf(
                s,
                #[trigger] capped(visible_seq(s, id, pos, f), cap)[i],
                f,
            ),
{
    lemma_visible_admitted(s, id, pos, f);
    let v = visible_seq(s, id, pos, f);
    assert forall|i: int| 0 <= i < capped(v, cap).len() implies in_admitted_leaf(
        s,
        #[trigger] capped(v, cap)[i],
        f,
    ) by {
        assert(capped(v, cap)[i] == v[i]);
    }
}

proof fn lemma_visible_admitted(s: Seq<Octant>, id: int, pos: Point, f: Frustum)
    ensures
        forall|i: int|
            0 <= i < visible_seq(s, id, pos, f).len() ==> in_admitted_leaf(
                s,
                #[trigger] visible_seq(s, id, pos, f)[i],
                f,
            ),
    decreases (if 0 <= id < s.len() { s[id].extension as int } else { 0 }), 9int,
{
    if 0 <= id < s.len() && s[id].extension >= 0 && octant_admitted(s, id, f) {
        match s[id].content {
            Content::Leaf(v) => {
                assert forall|i: int| 0 <= i < visible_seq(s, id, pos, f).len() implies in_admitted_leaf(
                    s,
                    #[trigger] visible_seq(s, id, pos, f)[i],
                    f,
                ) by {
                    assert(visible_seq(s, id, pos, f) == v@);
                    assert(leaf_seq(s[id])[i] == visible_seq(s, id, pos, f)[i]);
                    assert(leaf_seq(s[id]).contains(visible_seq(s, id, pos, f)[i]));
                }
            },
            Content::Parent(ch) => {
                assert(visible_seq(s, id, pos, f) == children_seq(
                    s,
                    ch,
                    far_order(child_dists(s, ch, pos)),
                    s[id].extension as int,
                    pos,
                    f,
                    8,
                ));
                lemma_children_admitted(
                    s,
                    ch,
                    far_order(child_dists(s, ch, pos)),
                    s[id].extension as int,
                    pos,
                    f,
                    8,
                );
            },
        }
    }
}

proof fn lemma_children_admitted(
    s: Seq<Octant>,
    ch: [usize; 8],
    order: Seq<int>,
    pe: int,
    pos: Point,
    f: Frustum,
    n: int,
)
    ensures
        forall|i: int|
            0 <= i < children_seq(s, ch, order, pe, pos, f, n).len() ==> in_admitted_leaf(
                s,
                #[trigger] children_seq(s, ch, order, pe, pos, f, n)[i],
                f,
            ),
    decreases pe, n,
{
    if n > 0 && pe >= 0 {
        let c = ch@[order[n - 1]] as int;
        lemma_children_admitted(s, ch, order, pe, pos, f, n - 1);
        let rest = children_seq(s, ch, order, pe, pos, f, n - 1);
        if 0 <= c < s.len() && 0 <= s[c].extension < pe {
            lemma_visible_admitted(s, c, pos, f);
            let vis = visible_seq(s, c, pos, f);
            assert forall|i: int| 0 <= i < (rest + vis).len() implies in_admitted_leaf(
                s,
                #[trigger] (rest + vis)[i],
                f,
            ) by {
                if i < rest.len() {
                    assert((rest + vis)[i] == rest[i]);
                } else {
                    assert((rest + vis)[i] == vis[i - rest.len()]);
                }
            }
        }
    }
}

proof fn lemma_best_upto(d: Seq<int>, used: Seq<bool>, i: int)
    requires
        0 <= i <= used.len(),
    ensures
        best_upto(d, used, i) == -1 <==> (forall|k: int| 0 <= k < i ==> used[k]),
        best_upto(d, used, i) != -1 ==> 0 <= best_upto(d, used, i) < i && !used[best_upto(
            d,
            used,
            i,
        )],
    decreases i,
{
    if i > 0 {
        lemma_best_upto(d, used, i - 1);
    }
}

/// The selection picks distinct slots, and a slot is marked used exactly
/// when it has been picked.
proof fn lemma_selection(d: Seq<int>, n: int)
    requires
        0 <= n <= 8,
    ensures
        selection(d, n).0.len() == n,
        selection(d, n).1.len() == 8,
        forall|k: int| 0 <= k < 8 ==> (selection(d, n).1[k] <==> selection(d, n).0.contains(k)),
        forall|p: int| 0 <= p < n ==> 0 <= #[trigger] selection(d, n).0[p] < 8,
        selection(d, n).0.no_duplicates(),
    decreases n,
{
    broadcast use vstd::seq_lib::seq_to_set_is_finite;

    if n > 0 {
        lemma_selection(d, n - 1);
        let (order, used) = selection(d, n - 1);
        lemma_best_upto(d, used, 8);
        let b = best_upto(d, used, 8);
        if b == -1 {
            assert(vstd::set_lib::set_int_range(0, 8).subset_of(order.to_set())) by {
                assert forall|k: int| vstd::set_lib::set_int_range(0, 8).contains(k) implies order.to_set().contains(k) by {
                    assert(used[k]);
                }
            }
            order.lemma_cardinality_of_set();
            vstd::set_lib::lemma_int_range(0, 8);
            vstd::set_lib::lemma_len_subset(vstd::set_lib::set_int_range(0, 8), order.to_set());
        }
        let next = order.push(b);
        assert forall|k: int| 0 <= k < 8 implies (used.update(b, true)[k] <==> next.contains(k)) by {
            if k == b {
                assert(next[n - 1] == b);
            } else {
                if order.contains(k) {
                    let p = choose|p: int| 0 <= p < order.len() && order[p] == k;
                    assert(next[p] == k);
                }
                if next.contains(k) {
                    let p = choose|p: int| 0 <= p < next.len() && next[p] == k;
                    assert(p < n - 1);
                    assert(order[p] == k);
                }
            }
        }
        assert forall|p: int, q: int| 0 <= p < next.len() && 0 <= q < next.len() && p != q implies next[p] != next[q] by {
            if p == n - 1 {
                assert(!order.contains(b));
            } else if q == n - 1 {
                assert(!order.contains(b));
                assert(order[p] == next[p]);
            }
        }
    }
}

/// The farthest-first order names every child slot.
proof fn lemma_far_order_complete(d: Seq<int>, k: int)
    requires
        0 <= k < 8,
    ensures
        far_order(d).contains(k),
{
    broadcast use vstd::seq_lib::seq_to_set_is_finite;

    broadcast use vstd::set::group_set_axioms;

    lemma_selection(d, 8);
    let order = far_order(d);
    assert(order == selection(d, 8).0);
    if !order.contains(k) {
        order.unique_seq_to_set();
        vstd::set_lib::lemma_int_range(0, 8);
        let r = vstd::set_lib::set_int_range(0, 8).remove(k);
        assert(order.to_set().subset_of(r)) by {
            assert forall|x: int| order.to_set().contains(x) implies r.contains(x) by {
                let p = choose|p: int| 0 <= p < order.len() && order[p] == x;
            }
        }
        vstd::set_lib::lemma_len_subset(order.to_set(), r);
    }
}

/// What a child gathers is part of what its parent's children gather.
proof fn lemma_children_seq_contains(
    s: Seq<Octant>,
    ch: [usize; 8],
    order: Seq<int>,
    pe: int,
    pos: Point,
    f: Frustum,
    n: int,
    p: int,
    x: Mark,
)
    requires
        0 <= p < n,
        pe >= 0,
        0 <= ch@[order[p]] < s.len(),
        0 <= s[ch@[order[p]] as int].extension < pe,
        visible_seq(s, ch@[order[p]] as int, pos, f).contains(x),
    ensures
        children_seq(s, ch, order, pe, pos, f, n).contains(x),
    decreases n,
{
    let rest = children_seq(s, ch, order, pe, pos, f, n - 1);
    let c = ch@[order[n - 1]] as int;
    if p < n - 1 {
        lemma_children_seq_contains(s, ch, order, pe, pos, f, n - 1, p, x);
        let q = choose|q: int| 0 <= q < rest.len() && rest[q] == x;
        if 0 <= c < s.len() && 0 <= s[c].extension < pe {
            assert((rest + visible_seq(s, c, pos, f))[q] == x);
        }
    } else {
        let v = visible_seq(s, c, pos, f);
        let q = choose|q: int| 0 <= q < v.len() && v[q] == x;
        assert((rest + v)[rest.len() + q] == x);
    }
}

/// The plane's inside is all of space: `0 >= d` everywhere.
pub open spec fn plane_is_everything(pl: Plane) -> bool {
    pl.nx == 0 && pl.ny == 0 && pl.nz == 0 && pl.d <= 0
}

/// Every plane of the frustum admits all of space.
pub open spec fn includes_all_space(f: Frustum) -> bool {
    forall|i: int| 0 <= i < 6 ==> plane_is_everything(#[trigger] f@[i])
}

/// With a frustum that includes all space, what any octant gathers is part
/// of what the root gathers.
proof fn lemma_visible_in_root(t: &Octree, i: int, pos: Point, f: Frustum, x: Mark)
    requires
        t.wf(),
        includes_all_space(f),
        0 <= i < t.octants_view().len(),
        visible_seq(t.octants_view(), i, pos, f).contains(x),
    ensures
        visible_seq(t.octants_view(), t.root_index(), pos, f).contains(x),
    decreases BASE_EXTENSION - t.octants_view()[i].extension,
{
    let s = t.octants_view();
    if i != t.root_index() {
        assert(has_parent(s, i));
        let (j, k) = choose|j: int, k: int| 0 <= j < s.len() && 0 <= k < 8 && #[trigger] child_at(s[j], k) == i;
        assert(octant_wf(s, j, t.bucket()));
        assert(octant_wf(s, i, t.bucket()));
        match s[j].content {
            Content::Parent(ch) => {
                let order = far_order(child_dists(s, ch, pos));
                lemma_far_order_complete(child_dists(s, ch, pos), k);
                let p = choose|p: int| 0 <= p < order.len() && order[p] == k;
                lemma_selection(child_dists(s, ch, pos), 8);
                assert(ch@[k] < s.len());
                lemma_admits_everything(f, s[j].center, s[j].extension as int);
                lemma_children_seq_contains(s, ch, order, s[j].extension as int, pos, f, 8, p, x);
                lemma_visible_in_root(t, j, pos, f, x);
            },
            Content::Leaf(_) => {},
        }
    }
}

proof fn lemma_admits_everything(f: Frustum, c: Point, e: int)
    requires
        includes_all_space(f),
        e >= 0,
    ensures
        frustum_admits(f, c, e),
{
    assert forall|i: int| 0 <= i < 6 implies plane_admits(#[trigger] f@[i], c, e) by {
        assert(plane_is_everything(f@[i]));
        assert(f@[i].nx * c.x == 0 && f@[i].ny * c.y == 0 && f@[i].nz * c.z == 0);
    }
}

proof fn lemma_marks_in_leaf(s: Seq<Octant>, m: Mark)
    requires
        marks_of(s).contains(m),
    ensures
        exists|i: int| 0 <= i < s.len() && #[trigger] leaf_seq(s[i]).contains(m),
    decreases s.len(),
{
    if s.len() > 0 {
        let t = s.drop_last();
        if marks_of(t).contains(m) {
            lemma_marks_in_leaf(t, m);
            let i = choose|i: int| 0 <= i < t.len() && #[trigger] leaf_seq(t[i]).contains(m);
            assert(s[i] == t[i]);
        } else {
            assert(leaf_seq(s.last()).to_multiset().count(m) > 0);
            assert(leaf_seq(s[s.len() - 1]).contains(m));
        }
    }
}

/// A mark the tree holds, one just inserted among them, is returned by a
/// query whose frustum includes all space and whose buffer can take every
/// mark the query gathers.
pub proof fn lemma_stored_mark_visible(t: &Octree, m: Mark, pos: Point, f: Frustum, cap: int)
    requires
        t.wf(),
        t.marks().contains(m),
        includes_all_space(f),
        cap >= visible_seq(t.octants_view(), t.root_index(), pos, f).len(),
    ensures
        capped(visible_seq(t.octants_view(), t.root_index(), pos, f), cap).contains(m),
{
    let s = t.octants_view();
    lemma_marks_in_leaf(s, m);
    let i = choose|i: int| 0 <= i < s.len() && #[trigger] leaf_seq(s[i]).contains(m);
    assert(octant_wf(s, i, t.bucket()));
    lemma_admits_everything(f, s[i].center, s[i].extension as int);
    match s[i].content {
        Content::Leaf(v) => {
            assert(visible_seq(s, i, pos, f) == v@);
        },
        Content::Parent(_) => {},
    }
    lemma_visible_in_root(t, i, pos, f, m);
}

} // verus!

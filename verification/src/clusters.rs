//! Rook-connected clusters of dots: what it means for dots to hang together,
//! and the split of a set of dots into its maximal clusters.

use crate::shapes::Dot;
use vstd::prelude::*;

verus! {

impl Dot {
    /// Whether the two dots are rook neighbours: one step apart along one axis.
    pub fn is_adjacent(self, other: Dot) -> (r: bool)
        ensures
            r == adjacent(self, other),
    {
        let ax: u8 = if self.0 >= other.0 {
            self.0 - other.0
        } else {
            other.0 - self.0
        };
        let ay: u8 = if self.1 >= other.1 {
            self.1 - other.1
        } else {
            other.1 - self.1
        };
        (ax == 1 && ay == 0) || (ax == 0 && ay == 1)
    }

    /// Splits `ids` into its maximal clusters of rook-connected dots.
    ///
    /// Every dot of `ids` lands in exactly one cluster, as often as it occurs in
    /// `ids`; within a cluster each dot but the first is a neighbour of an earlier
    /// one; no dot is a neighbour of a dot in another cluster. For no dots at all
    /// the result is one empty cluster. The clusters come in the order of
    /// `clusters`.
    pub fn group_connected(ids: &[Dot]) -> (res: Vec<Vec<Dot>>)
        ensures
            clusters_of(res@) == clusters(ids@),
            is_grouping(clusters_of(res@), ids@),
    {
        let mut res: Vec<Vec<Dot>> = Vec::new();
        let mut rest: Vec<Dot> = Vec::new();
        let mut n: usize = 0;
        while n < ids.len()
            invariant
                n <= ids@.len(),
                rest@ == ids@.take(n as int),
            decreases ids@.len() - n,
        {
            rest.push(ids[n]);
            n += 1;
        }
        proof {
            assert(rest@ =~= ids@);
            assert(clusters_of(res@) =~= Seq::<Seq<Dot>>::empty());
        }
        while rest.len() > 0
            invariant
                split(rest@, clusters_of(res@)) == split(ids@, Seq::empty()),
                rest@.len() <= ids@.len(),
                rest@.len() < ids@.len() ==> res@.len() > 0,
                res@.len() > 0 ==> ids@.len() > 0,
            decreases rest.len(),
        {
            let ghost rest0 = rest@;
            let ghost done = clusters_of(res@);
            let seed = rest.pop().unwrap();
            let mut cs: Vec<Dot> = Vec::new();
            cs.push(seed);
            let ghost grown = grow(seq![seed], rest@);
            let mut d = true;
            proof {
                assert(cs@ =~= seq![seed]);
                assert(rest@ =~= rest0.drop_last());
            }
            while d
                invariant
                    d ==> grow(cs@, rest@) == grown,
                    !d ==> (cs@, rest@) == grown,
                    rest@.len() < rest0.len(),
                decreases rest@.len() + (if d { 1int } else { 0int }),
            {
                d = false;
                let ghost cs0 = cs@;
                let ghost r0 = rest@;
                let mut i: usize = 0;
                while i < rest.len()
                    invariant
                        i <= rest@.len(),
                        absorb(cs@, rest@, i as int) == absorb(cs0, r0, 0),
                        rest@.len() <= r0.len(),
                        d <==> rest@.len() < r0.len(),
                    decreases rest@.len() - i,
                {
                    let x = rest[i];
                    if Self::touches_any(&cs, x) {
                        cs.push(x);
                        rest.remove(i);
                        d = true;
                    } else {
                        i += 1;
                    }
                }
            }
            proof {
                assert(clusters_of(res@.push(cs)) =~= done.push(cs@));
                assert(rest0.last() == seed);
            }
            res.push(cs);
        }
        proof {
            lemma_clusters(ids@);
        }
        if res.len() == 0 {
            let mut one: Vec<Vec<Dot>> = Vec::new();
            one.push(Vec::new());
            assert(clusters_of(one@) =~= seq![Seq::<Dot>::empty()]);
            one
        } else {
            res
        }
    }

    /// Whether `x` is a rook neighbour of one of `cs`.
    fn touches_any(cs: &Vec<Dot>, x: Dot) -> (r: bool)
        ensures
            r == touches(cs@, x),
    {
        let mut j: usize = 0;
        while j < cs.len()
            invariant
                j <= cs@.len(),
                forall|k: int| 0 <= k < j ==> !adjacent(#[trigger] cs@[k], x),
            decreases cs@.len() - j,
        {
            if cs[j].is_adjacent(x) {
                return true;
            }
            j += 1;
        }
        false
    }
}

/// Rook adjacency: the dots differ by one step along exactly one axis.
pub open spec fn adjacent(a: Dot, b: Dot) -> bool {
    let ax = if a.0 >= b.0 {
        a.0 - b.0
    } else {
        b.0 - a.0
    };
    let ay = if a.1 >= b.1 {
        a.1 - b.1
    } else {
        b.1 - a.1
    };
    ax + ay == 1
}

/// Every dot but the first is a rook neighbour of an earlier dot of the
/// sequence, so the dots hang together.
pub open spec fn linked(s: Seq<Dot>) -> bool {
    forall|k: int| 1 <= k < s.len() ==> #[trigger] touches_earlier(s, k)
}

/// Dot `k` of `s` is a rook neighbour of a dot before it in `s`.
pub open spec fn touches_earlier(s: Seq<Dot>, k: int) -> bool {
    exists|j: int| 0 <= j < k && adjacent(#[trigger] s[j], s[k])
}

/// No dot of `s` is a rook neighbour of a dot of `t`.
pub open spec fn apart(s: Seq<Dot>, t: Seq<Dot>) -> bool {
    forall|i: int, j: int|
        0 <= i < s.len() && 0 <= j < t.len() ==> !adjacent(#[trigger] s[i], #[trigger] t[j])
}

/// The clusters as sequences of dots.
pub open spec fn clusters_of(groups: Seq<Vec<Dot>>) -> Seq<Seq<Dot>> {
    Seq::new(groups.len(), |g: int| groups[g]@)
}

/// `groups` splits `dots` into its maximal rook-connected clusters: together
/// the clusters hold exactly the dots, each as often as it occurs; each cluster
/// hangs together; different clusters do not touch; and a cluster is empty
/// only where there are no dots, when the one cluster is the empty one.
pub open spec fn is_grouping(groups: Seq<Seq<Dot>>, dots: Seq<Dot>) -> bool {
    &&& groups.flatten().to_multiset() == dots.to_multiset()
    &&& forall|g: int| 0 <= g < groups.len() ==> linked(#[trigger] groups[g])
    &&& forall|g: int, h: int|
        0 <= g < groups.len() && 0 <= h < groups.len() && g != h ==> apart(
            #[trigger] groups[g],
            #[trigger] groups[h],
        )
    &&& if dots.len() == 0 {
        groups == seq![Seq::<Dot>::empty()]
    } else {
        forall|g: int| 0 <= g < groups.len() ==> (#[trigger] groups[g]).len() > 0
    }
}

/// Rook adjacency goes both ways.
pub proof fn lemma_adjacent_symmetric(a: Dot, b: Dot)
    ensures
        adjacent(a, b) == adjacent(b, a),
{
}

/// Being apart goes both ways.
pub proof fn lemma_apart_symmetric(s: Seq<Dot>, t: Seq<Dot>)
    requires
        apart(s, t),
    ensures
        apart(t, s),
{
    assert forall|i: int, j: int| 0 <= i < t.len() && 0 <= j < s.len() implies !adjacent(
        #[trigger] t[i],
        #[trigger] s[j],
    ) by {
        assert(!adjacent(s[j], t[i]));
        lemma_adjacent_symmetric(s[j], t[i]);
    }
}


/// Every dot of a cluster is a dot of the flattened clusters.
proof fn lemma_flatten_has(groups: Seq<Seq<Dot>>, g: int, k: int)
    requires
        0 <= g < groups.len(),
        0 <= k < groups[g].len(),
    ensures
        groups.flatten().contains(groups[g][k]),
    decreases groups.len(),
{
    let last = groups.last();
    let front = groups.drop_last();
    assert(groups =~= front.push(last));
    front.lemma_flatten_push(last);
    let flat = groups.flatten();
    assert(flat =~= front.flatten() + last);
    if g == groups.len() - 1 {
        assert(flat[front.flatten().len() + k] == groups[g][k]);
    } else {
        lemma_flatten_has(front, g, k);
        let i = choose|i: int| 0 <= i < front.flatten().len() && front.flatten()[i] == groups[g][k];
        assert(flat[i] == groups[g][k]);
    }
}

/// Every dot of the flattened clusters is a dot of one of them.
pub proof fn lemma_flatten_from(groups: Seq<Seq<Dot>>, d: Dot) -> (at: (int, int))
    requires
        groups.flatten().contains(d),
    ensures
        0 <= at.0 < groups.len(),
        0 <= at.1 < groups[at.0].len(),
        groups[at.0][at.1] == d,
    decreases groups.len(),
{
    if groups.len() == 0 {
        assert(groups.flatten() =~= Seq::<Dot>::empty());
        (0, 0)
    } else {
        let last = groups.last();
        let front = groups.drop_last();
        assert(groups =~= front.push(last));
        front.lemma_flatten_push(last);
        let flat = groups.flatten();
        assert(flat =~= front.flatten() + last);
        let i = choose|i: int| 0 <= i < flat.len() && flat[i] == d;
        if i < front.flatten().len() {
            assert(front.flatten()[i] == d);
            lemma_flatten_from(front, d)
        } else {
            (groups.len() - 1, i - front.flatten().len())
        }
    }
}

/// A grouping has at least one cluster, and each dot of a cluster is one of
/// the grouped dots.
pub proof fn lemma_grouping_within(groups: Seq<Seq<Dot>>, dots: Seq<Dot>)
    requires
        is_grouping(groups, dots),
    ensures
        groups.len() > 0,
        forall|g: int, k: int|
            0 <= g < groups.len() && 0 <= k < groups[g].len() ==> dots.contains(
                #[trigger] groups[g][k],
            ),
{
    broadcast use vstd::seq_lib::group_to_multiset_ensures;

    if groups.len() == 0 {
        assert(groups.flatten() =~= Seq::<Dot>::empty());
        assert(groups.flatten().to_multiset().len() == 0);
        assert(dots.to_multiset().len() == dots.len());
    }
    assert forall|g: int, k: int|
        0 <= g < groups.len() && 0 <= k < groups[g].len() implies dots.contains(
        #[trigger] groups[g][k],
    ) by {
        lemma_flatten_has(groups, g, k);
        vstd::seq_lib::to_multiset_contains(groups.flatten(), groups[g][k]);
        vstd::seq_lib::to_multiset_contains(dots, groups[g][k]);
    }
}

/// The number of dots in the clusters before cluster `g`.
spec fn offset(groups: Seq<Seq<Dot>>, g: int) -> int {
    groups.take(g).flatten().len() as int
}

/// Where the dots of cluster `g` stand among the flattened clusters.
proof fn lemma_offset(groups: Seq<Seq<Dot>>, g: int)
    requires
        0 <= g < groups.len(),
    ensures
        offset(groups, g + 1) == offset(groups, g) + groups[g].len(),
        offset(groups, g + 1) <= groups.flatten().len(),
        forall|k: int|
            0 <= k < groups[g].len() ==> groups.flatten()[offset(groups, g) + k] == groups[g][k],
{
    let head = groups.take(g);
    let tail = groups.skip(g + 1);
    assert(groups.take(g + 1) =~= head.push(groups[g]));
    head.lemma_flatten_push(groups[g]);
    assert(groups =~= groups.take(g + 1) + tail);
    vstd::seq_lib::lemma_flatten_concat(groups.take(g + 1), tail);
}

/// Later clusters start further on.
proof fn lemma_offset_rises(groups: Seq<Seq<Dot>>, g: int, g2: int)
    requires
        0 <= g <= g2 <= groups.len(),
    ensures
        offset(groups, g) <= offset(groups, g2),
    decreases g2 - g,
{
    if g < g2 {
        lemma_offset(groups, g);
        lemma_offset_rises(groups, g + 1, g2);
    }
}

/// Where the flattened clusters hold no dot twice, two places in the clusters
/// hold different dots.
pub proof fn lemma_groups_differ(groups: Seq<Seq<Dot>>, g: int, k: int, g2: int, k2: int)
    requires
        groups.flatten().no_duplicates(),
        0 <= g < groups.len(),
        0 <= k < groups[g].len(),
        0 <= g2 < groups.len(),
        0 <= k2 < groups[g2].len(),
        g != g2 || k != k2,
    ensures
        groups[g][k] != groups[g2][k2],
{
    lemma_offset(groups, g);
    lemma_offset(groups, g2);
    if g < g2 {
        lemma_offset_rises(groups, g + 1, g2);
    } else if g2 < g {
        lemma_offset_rises(groups, g2 + 1, g);
    }
    let a = offset(groups, g) + k;
    let b = offset(groups, g2) + k2;
    assert(a != b);
    assert(groups.flatten()[a] == groups[g][k]);
    assert(groups.flatten()[b] == groups[g2][k2]);
}

/// Dot `d` is a rook neighbour of one of `cs`.
pub open spec fn touches(cs: Seq<Dot>, d: Dot) -> bool {
    exists|j: int| 0 <= j < cs.len() && adjacent(#[trigger] cs[j], d)
}

/// One pass over `rest` from place `i` on: each dot that is a rook neighbour
/// of a dot of `cs` moves to the end of `cs`. Gives `cs` and `rest` as they
/// are after the pass.
pub open spec fn absorb(cs: Seq<Dot>, rest: Seq<Dot>, i: int) -> (Seq<Dot>, Seq<Dot>)
    decreases rest.len() - i,
{
    if 0 <= i < rest.len() {
        if touches(cs, rest[i]) {
            absorb(cs.push(rest[i]), rest.remove(i), i)
        } else {
            absorb(cs, rest, i + 1)
        }
    } else {
        (cs, rest)
    }
}

/// Passes over `rest`, one after another, until a pass moves no dot to `cs`.
/// Gives the cluster that `cs` has grown to and the dots that are left.
pub open spec fn grow(cs: Seq<Dot>, rest: Seq<Dot>) -> (Seq<Dot>, Seq<Dot>)
    decreases rest.len(),
{
    let next = absorb(cs, rest, 0);
    if next.1.len() < rest.len() {
        grow(next.0, next.1)
    } else {
        next
    }
}

/// The clusters `done` followed by the clusters of `rest`: the last dot of
/// `rest` starts a cluster, which grows as far as it can, and so on with the
/// dots that are left.
pub open spec fn split(rest: Seq<Dot>, done: Seq<Seq<Dot>>) -> Seq<Seq<Dot>>
    decreases rest.len(),
{
    if rest.len() == 0 {
        done
    } else {
        let grown = grow(seq![rest.last()], rest.drop_last());
        proof {
            lemma_grow_keeps(seq![rest.last()], rest.drop_last());
        }
        split(grown.1, done.push(grown.0))
    }
}

/// The maximal rook-connected clusters of `dots`, in the order in which
/// `Dot::group_connected` gives them: the first cluster is that of the last
/// dot, the next that of the last dot outside the first, and so on; within a
/// cluster the dots stand as the passes over the remaining dots met them.
/// For no dots there is one empty cluster.
pub open spec fn clusters(dots: Seq<Dot>) -> Seq<Seq<Dot>> {
    if dots.len() == 0 {
        seq![Seq::empty()]
    } else {
        split(dots, Seq::empty())
    }
}

/// A pass loses no dot and makes none.
pub proof fn lemma_absorb_keeps(cs: Seq<Dot>, rest: Seq<Dot>, i: int)
    requires
        0 <= i <= rest.len(),
    ensures
        absorb(cs, rest, i).0.len() + absorb(cs, rest, i).1.len() == cs.len() + rest.len(),
        absorb(cs, rest, i).1.len() <= rest.len(),
    decreases rest.len() - i,
{
    if i < rest.len() {
        if touches(cs, rest[i]) {
            lemma_absorb_keeps(cs.push(rest[i]), rest.remove(i), i);
        } else {
            lemma_absorb_keeps(cs, rest, i + 1);
        }
    }
}

/// A growing cluster loses no dot and makes none.
pub proof fn lemma_grow_keeps(cs: Seq<Dot>, rest: Seq<Dot>)
    ensures
        grow(cs, rest).0.len() + grow(cs, rest).1.len() == cs.len() + rest.len(),
        grow(cs, rest).1.len() <= rest.len(),
    decreases rest.len(),
{
    lemma_absorb_keeps(cs, rest, 0);
    let next = absorb(cs, rest, 0);
    if next.1.len() < rest.len() {
        lemma_grow_keeps(next.0, next.1);
    }
}

/// What a pass keeps: the dots of `cs` hang together, the dots are the same,
/// and where the pass moved none, none of the dots from `i` on touches `cs`.
proof fn lemma_absorb(cs: Seq<Dot>, rest: Seq<Dot>, i: int)
    requires
        linked(cs),
        0 <= i <= rest.len(),
    ensures
        linked(absorb(cs, rest, i).0),
        absorb(cs, rest, i).0.len() >= cs.len(),
        absorb(cs, rest, i).1.len() <= rest.len(),
        absorb(cs, rest, i).0.to_multiset().add(absorb(cs, rest, i).1.to_multiset())
            == cs.to_multiset().add(rest.to_multiset()),
        absorb(cs, rest, i).1.len() == rest.len() ==> absorb(cs, rest, i) == (cs, rest) && forall|
            j: int,
        |
            i <= j < rest.len() ==> !touches(cs, #[trigger] rest[j]),
    decreases rest.len() - i,
{
    broadcast use vstd::seq_lib::group_to_multiset_ensures;

    if i < rest.len() {
        let x = rest[i];
        if touches(cs, x) {
            let cs1 = cs.push(x);
            let rest1 = rest.remove(i);
            assert forall|k: int| 1 <= k < cs1.len() implies #[trigger] touches_earlier(cs1, k) by {
                if k < cs.len() {
                    assert(touches_earlier(cs, k));
                    let j = choose|j: int| 0 <= j < k && adjacent(#[trigger] cs[j], cs[k]);
                    assert(adjacent(cs1[j], cs1[k]));
                } else {
                    let j = choose|j: int| 0 <= j < cs.len() && adjacent(#[trigger] cs[j], x);
                    assert(adjacent(cs1[j], cs1[k]));
                }
            }
            lemma_absorb(cs1, rest1, i);
            assert(rest.contains(x));
            vstd::seq_lib::to_multiset_contains(rest, x);
            vstd::seq_lib::to_multiset_remove(rest, i);
            vstd::seq_lib::to_multiset_build(cs, x);
            assert(cs1.to_multiset().add(rest1.to_multiset()) =~= cs.to_multiset().add(
                rest.to_multiset(),
            ));
        } else {
            lemma_absorb(cs, rest, i + 1);
        }
    }
}

/// What a grown cluster is: its dots hang together, none of the dots left
/// touches it, and the dots are the same.
proof fn lemma_grow(cs: Seq<Dot>, rest: Seq<Dot>)
    requires
        linked(cs),
    ensures
        linked(grow(cs, rest).0),
        grow(cs, rest).0.len() >= cs.len(),
        grow(cs, rest).1.len() <= rest.len(),
        grow(cs, rest).0.to_multiset().add(grow(cs, rest).1.to_multiset()) == cs.to_multiset().add(
            rest.to_multiset(),
        ),
        apart(grow(cs, rest).0, grow(cs, rest).1),
    decreases rest.len(),
{
    lemma_absorb(cs, rest, 0);
    let next = absorb(cs, rest, 0);
    if next.1.len() < rest.len() {
        lemma_grow(next.0, next.1);
    } else {
        assert forall|c: int, j: int| 0 <= c < cs.len() && 0 <= j < rest.len() implies !adjacent(
            #[trigger] cs[c],
            #[trigger] rest[j],
        ) by {
            assert(!touches(cs, rest[j]));
        }
    }
}

/// Dots that are shared out anew are still the same dots.
proof fn lemma_same_dots(a: Seq<Dot>, b: Seq<Dot>, c: Seq<Dot>, d: Seq<Dot>)
    requires
        a.to_multiset().add(b.to_multiset()) == c.to_multiset().add(d.to_multiset()),
    ensures
        forall|k: int| 0 <= k < a.len() ==> c.contains(#[trigger] a[k]) || d.contains(a[k]),
        forall|k: int| 0 <= k < b.len() ==> c.contains(#[trigger] b[k]) || d.contains(b[k]),
{
    broadcast use vstd::seq_lib::group_to_multiset_ensures;

    assert forall|k: int| 0 <= k < a.len() implies c.contains(#[trigger] a[k]) || d.contains(
        a[k],
    ) by {
        assert(a.contains(a[k]));
        vstd::seq_lib::to_multiset_contains(a, a[k]);
        vstd::seq_lib::to_multiset_contains(c, a[k]);
        vstd::seq_lib::to_multiset_contains(d, a[k]);
        assert(a.to_multiset().add(b.to_multiset()).count(a[k]) > 0);
    }
    assert forall|k: int| 0 <= k < b.len() implies c.contains(#[trigger] b[k]) || d.contains(
        b[k],
    ) by {
        assert(b.contains(b[k]));
        vstd::seq_lib::to_multiset_contains(b, b[k]);
        vstd::seq_lib::to_multiset_contains(c, b[k]);
        vstd::seq_lib::to_multiset_contains(d, b[k]);
        assert(a.to_multiset().add(b.to_multiset()).count(b[k]) > 0);
    }
}

/// What `split` adds to clusters that are clusters already.
proof fn lemma_split(rest: Seq<Dot>, done: Seq<Seq<Dot>>, dots: Seq<Dot>)
    requires
        done.flatten().to_multiset().add(rest.to_multiset()) == dots.to_multiset(),
        forall|g: int| 0 <= g < done.len() ==> linked(#[trigger] done[g]) && done[g].len() > 0,
        forall|g: int, h: int|
            0 <= g < done.len() && 0 <= h < done.len() && g != h ==> apart(
                #[trigger] done[g],
                #[trigger] done[h],
            ),
        forall|g: int| 0 <= g < done.len() ==> apart(#[trigger] done[g], rest),
    ensures
        split(rest, done).flatten().to_multiset() == dots.to_multiset(),
        forall|g: int|
            0 <= g < split(rest, done).len() ==> linked(#[trigger] split(rest, done)[g]) && split(
                rest,
                done,
            )[g].len() > 0,
        forall|g: int, h: int|
            0 <= g < split(rest, done).len() && 0 <= h < split(rest, done).len() && g != h
                ==> apart(#[trigger] split(rest, done)[g], #[trigger] split(rest, done)[h]),
    decreases rest.len(),
{
    broadcast use vstd::seq_lib::group_to_multiset_ensures;

    if rest.len() == 0 {
        assert(rest.to_multiset() =~= vstd::multiset::Multiset::empty());
        assert(done.flatten().to_multiset() =~= dots.to_multiset());
    } else {
        let seed = rest.last();
        let tail = rest.drop_last();
        let start = seq![seed];
        let grown = grow(start, tail);
        let next = done.push(grown.0);
        lemma_grow(start, tail);
        lemma_grow_keeps(start, tail);
        assert(rest =~= tail.push(seed));
        assert(start =~= Seq::<Dot>::empty().push(seed));
        assert(Seq::<Dot>::empty().to_multiset() =~= vstd::multiset::Multiset::empty());
        assert(start.to_multiset().add(tail.to_multiset()) =~= rest.to_multiset());
        done.lemma_flatten_push(grown.0);
        vstd::seq_lib::lemma_multiset_commutative(done.flatten(), grown.0);
        assert(next.flatten().to_multiset().add(grown.1.to_multiset()) =~= dots.to_multiset());
        lemma_same_dots(grown.0, grown.1, start, tail);
        assert forall|k: int| 0 <= k < grown.0.len() implies rest.contains(#[trigger] grown.0[k]) by {
            if start.contains(grown.0[k]) {
                assert(grown.0[k] == rest[rest.len() - 1]);
            } else {
                let j = choose|j: int| 0 <= j < tail.len() && tail[j] == grown.0[k];
                assert(rest[j] == grown.0[k]);
            }
        }
        assert forall|k: int| 0 <= k < grown.1.len() implies rest.contains(#[trigger] grown.1[k]) by {
            if start.contains(grown.1[k]) {
                assert(grown.1[k] == rest[rest.len() - 1]);
            } else {
                let j = choose|j: int| 0 <= j < tail.len() && tail[j] == grown.1[k];
                assert(rest[j] == grown.1[k]);
            }
        }
        assert forall|g: int| 0 <= g < done.len() implies apart(done[g], grown.0) && apart(
            done[g],
            grown.1,
        ) by {
            assert(apart(done[g], rest));
            assert forall|a: int, b: int|
                0 <= a < done[g].len() && 0 <= b < grown.0.len() implies !adjacent(
                #[trigger] done[g][a],
                #[trigger] grown.0[b],
            ) by {
                let j = choose|j: int| 0 <= j < rest.len() && rest[j] == grown.0[b];
                assert(!adjacent(done[g][a], rest[j]));
            }
            assert forall|a: int, b: int|
                0 <= a < done[g].len() && 0 <= b < grown.1.len() implies !adjacent(
                #[trigger] done[g][a],
                #[trigger] grown.1[b],
            ) by {
                let j = choose|j: int| 0 <= j < rest.len() && rest[j] == grown.1[b];
                assert(!adjacent(done[g][a], rest[j]));
            }
        }
        assert forall|g: int| 0 <= g < next.len() implies linked(#[trigger] next[g]) && next[g].len()
            > 0 by {
            if g < done.len() {
                assert(next[g] == done[g]);
            }
        }
        assert forall|g: int, h: int|
            0 <= g < next.len() && 0 <= h < next.len() && g != h implies apart(
            #[trigger] next[g],
            #[trigger] next[h],
        ) by {
            if g < done.len() && h < done.len() {
                assert(apart(done[g], done[h]));
            } else if g < done.len() {
                assert(apart(done[g], grown.0));
            } else {
                assert(apart(done[h], grown.0));
                lemma_apart_symmetric(done[h], grown.0);
            }
        }
        assert forall|g: int| 0 <= g < next.len() implies apart(#[trigger] next[g], grown.1) by {
            if g < done.len() {
                assert(next[g] == done[g]);
                assert(apart(done[g], grown.1));
            }
        }
        lemma_split(grown.1, next, dots);
    }
}

/// The clusters of `dots` are a grouping of them: together they hold
/// exactly the dots, each cluster hangs together, and no two clusters touch.
pub proof fn lemma_clusters(dots: Seq<Dot>)
    ensures
        is_grouping(clusters(dots), dots),
{
    broadcast use vstd::seq_lib::group_to_multiset_ensures;

    let none = Seq::<Seq<Dot>>::empty();
    if dots.len() == 0 {
        let one = seq![Seq::<Dot>::empty()];
        one.lemma_flatten_one_element();
        assert(one.flatten() =~= Seq::<Dot>::empty());
        assert(dots =~= Seq::<Dot>::empty());
    } else {
        assert(none.flatten() =~= Seq::<Dot>::empty());
        assert(Seq::<Dot>::empty().to_multiset() =~= vstd::multiset::Multiset::empty());
        assert(none.flatten().to_multiset().add(dots.to_multiset()) =~= dots.to_multiset());
        lemma_split(dots, none, dots);
    }
}

/// `path` leads through dots of `s`, each step to a rook neighbour.
pub open spec fn is_chain(path: Seq<Dot>, s: Seq<Dot>) -> bool {
    &&& path.len() > 0
    &&& forall|i: int| 0 <= i < path.len() ==> s.contains(#[trigger] path[i])
    &&& forall|i: int| 0 <= i < path.len() - 1 ==> adjacent(#[trigger] path[i], path[i + 1])
}

/// Some chain of rook neighbours through dots of `s` leads from `a` to `b`.
pub open spec fn joined(s: Seq<Dot>, a: Dot, b: Dot) -> bool {
    exists|path: Seq<Dot>| #[trigger] is_chain(path, s) && path.first() == a && path.last() == b
}

/// A chain walked backwards is a chain.
proof fn lemma_chain_reverse(path: Seq<Dot>, s: Seq<Dot>)
    requires
        is_chain(path, s),
    ensures
        is_chain(path.reverse(), s),
        path.reverse().first() == path.last(),
        path.reverse().last() == path.first(),
{
    let back = path.reverse();
    assert forall|i: int| 0 <= i < back.len() - 1 implies adjacent(#[trigger] back[i], back[i + 1]) by {
        let j = path.len() - 2 - i;
        assert(adjacent(path[j], path[j + 1]));
        lemma_adjacent_symmetric(path[j], path[j + 1]);
    }
}

/// A chain that ends where another begins goes on with it.
proof fn lemma_chain_concat(p: Seq<Dot>, q: Seq<Dot>, s: Seq<Dot>)
    requires
        is_chain(p, s),
        is_chain(q, s),
        p.last() == q.first(),
    ensures
        is_chain(p + q.drop_first(), s),
        (p + q.drop_first()).first() == p.first(),
        (p + q.drop_first()).last() == q.last(),
{
    let r = p + q.drop_first();
    assert forall|i: int| 0 <= i < r.len() implies s.contains(#[trigger] r[i]) by {
        if i < p.len() {
            assert(r[i] == p[i]);
        } else {
            assert(r[i] == q[i - p.len() + 1]);
        }
    }
    assert forall|i: int| 0 <= i < r.len() - 1 implies adjacent(#[trigger] r[i], r[i + 1]) by {
        if i < p.len() - 1 {
            assert(adjacent(p[i], p[i + 1]));
        } else {
            let j = i - p.len() + 1;
            assert(adjacent(q[j], q[j + 1]));
            assert(r[i + 1] == q[j + 1]);
            if j == 0 {
                assert(r[i] == p[p.len() - 1]);
            } else {
                assert(r[i] == q[j]);
            }
        }
    }
}

/// In dots that hang together, a chain leads from every dot to the first.
proof fn lemma_chain_to_first(s: Seq<Dot>, k: int) -> (path: Seq<Dot>)
    requires
        linked(s),
        0 <= k < s.len(),
    ensures
        is_chain(path, s),
        path.first() == s[k],
        path.last() == s[0],
    decreases k,
{
    if k == 0 {
        let path = seq![s[0]];
        assert(s.contains(s[0]));
        path
    } else {
        assert(touches_earlier(s, k));
        let j = choose|j: int| 0 <= j < k && adjacent(#[trigger] s[j], s[k]);
        let rest = lemma_chain_to_first(s, j);
        let path = seq![s[k]] + rest;
        lemma_adjacent_symmetric(s[j], s[k]);
        assert(s.contains(s[k]));
        assert forall|i: int| 0 <= i < path.len() implies s.contains(#[trigger] path[i]) by {
            if i > 0 {
                assert(path[i] == rest[i - 1]);
            }
        }
        assert forall|i: int| 0 <= i < path.len() - 1 implies adjacent(
            #[trigger] path[i],
            path[i + 1],
        ) by {
            assert(path[i + 1] == rest[i]);
            if i > 0 {
                assert(path[i] == rest[i - 1]);
                assert(adjacent(rest[i - 1], rest[i]));
            }
        }
        path
    }
}

/// Dots of which each but the first is a rook neighbour of an earlier one are
/// rook-connected: from each of them a chain of neighbours, all among these
/// dots, leads to each other one.
pub proof fn lemma_linked_joined(s: Seq<Dot>, i: int, j: int)
    requires
        linked(s),
        0 <= i < s.len(),
        0 <= j < s.len(),
    ensures
        joined(s, s[i], s[j]),
{
    let p = lemma_chain_to_first(s, i);
    let q = lemma_chain_to_first(s, j);
    lemma_chain_reverse(q, s);
    lemma_chain_concat(p, q.reverse(), s);
    assert(is_chain(p + q.reverse().drop_first(), s));
}

/// The clusters of a grouping are maximal: dots that a chain of rook
/// neighbours joins within the grouped dots lie in one cluster, the whole
/// chain with them.
pub proof fn lemma_chain_in_one_cluster(groups: Seq<Seq<Dot>>, dots: Seq<Dot>, path: Seq<Dot>) -> (g:
    int)
    requires
        is_grouping(groups, dots),
        is_chain(path, dots),
    ensures
        0 <= g < groups.len(),
        forall|i: int| 0 <= i < path.len() ==> groups[g].contains(#[trigger] path[i]),
    decreases path.len(),
{
    broadcast use vstd::seq_lib::group_to_multiset_ensures;

    let last = path.last();
    assert(dots.contains(last));
    vstd::seq_lib::to_multiset_contains(dots, last);
    vstd::seq_lib::to_multiset_contains(groups.flatten(), last);
    let at = lemma_flatten_from(groups, last);
    if path.len() == 1 {
        assert(groups[at.0].contains(path[0]));
        at.0
    } else {
        let front = path.drop_last();
        assert(is_chain(front, dots)) by {
            assert forall|i: int| 0 <= i < front.len() implies dots.contains(#[trigger] front[i]) by {
                assert(front[i] == path[i]);
            }
            assert forall|i: int| 0 <= i < front.len() - 1 implies adjacent(
                #[trigger] front[i],
                front[i + 1],
            ) by {
                assert(adjacent(path[i], path[i + 1]));
            }
        }
        let g = lemma_chain_in_one_cluster(groups, dots, front);
        let prev = path[path.len() - 2];
        assert(front[front.len() - 1] == prev);
        assert(groups[g].contains(prev));
        assert(adjacent(prev, path[path.len() - 2 + 1]));
        if at.0 != g {
            let k = choose|k: int| 0 <= k < groups[g].len() && groups[g][k] == prev;
            assert(apart(groups[g], groups[at.0]));
            assert(!adjacent(groups[g][k], groups[at.0][at.1]));
        }
        assert forall|i: int| 0 <= i < path.len() implies groups[g].contains(#[trigger] path[i]) by {
            if i < front.len() {
                assert(front[i] == path[i]);
            }
        }
        g
    }
}

/// Where no dot is grouped twice, no dot stands in two clusters, nor twice in one.
pub proof fn lemma_clusters_share_no_dot(
    groups: Seq<Seq<Dot>>,
    dots: Seq<Dot>,
    g: int,
    k: int,
    g2: int,
    k2: int,
)
    requires
        is_grouping(groups, dots),
        dots.no_duplicates(),
        0 <= g < groups.len(),
        0 <= k < groups[g].len(),
        0 <= g2 < groups.len(),
        0 <= k2 < groups[g2].len(),
        g != g2 || k != k2,
    ensures
        groups[g][k] != groups[g2][k2],
{
    dots.lemma_multiset_has_no_duplicates();
    groups.flatten().lemma_multiset_has_no_duplicates_conv();
    lemma_groups_differ(groups, g, k, g2, k2);
}

} // verus!

//! Collision groups: bodies that touch, directly or through a chain of other
//! bodies, end up in one group, and every group later becomes one body.

use vstd::prelude::*;

verus! {

/// Some group holds `x`.
pub open spec fn grouped(groups: Seq<Seq<usize>>, x: usize) -> bool {
    exists|g: int| 0 <= g < groups.len() && #[trigger] groups[g].contains(x)
}

/// A group that holds `x`; it is the only one where `disjoint(groups)`.
pub open spec fn holder(groups: Seq<Seq<usize>>, x: usize) -> int {
    choose|g: int| 0 <= g < groups.len() && #[trigger] groups[g].contains(x)
}

/// `x` and `y` are the same body, or one group holds both.
pub open spec fn together(groups: Seq<Seq<usize>>, x: usize, y: usize) -> bool {
    x == y || exists|g: int|
        0 <= g < groups.len() && #[trigger] groups[g].contains(x) && groups[g].contains(y)
}

/// No body stands twice in the groups, neither in one group nor in two.
pub open spec fn disjoint(groups: Seq<Seq<usize>>) -> bool {
    forall|g: int, k: int, h: int, l: int|
        0 <= g < groups.len() && 0 <= k < groups[g].len() && 0 <= h < groups.len() && 0 <= l
            < groups[h].len() && #[trigger] groups[g][k] == #[trigger] groups[h][l] ==> g == h && k
            == l
}

/// Every group has at least two members.
pub open spec fn plural(groups: Seq<Seq<usize>>) -> bool {
    forall|g: int| 0 <= g < groups.len() ==> (#[trigger] groups[g]).len() >= 2
}

/// What a list of groups must satisfy: groups of two or more, no body twice.
pub open spec fn well_grouped(groups: Seq<Seq<usize>>) -> bool {
    plural(groups) && disjoint(groups)
}

/// The group of `i` and `j` alone.
pub open spec fn couple(i: usize, j: usize) -> Seq<usize> {
    seq![i, j]
}

/// The groups after the collision of `i` with `j` is taken into account.
///
/// Two ungrouped bodies found a group, which goes to the end of the list. An
/// ungrouped body joins the group of the other, at its end. Two bodies of
/// different groups unite them: the later group is appended to the earlier one
/// and leaves the list. A body does not collide with itself.
pub open spec fn joined(groups: Seq<Seq<usize>>, i: usize, j: usize) -> Seq<Seq<usize>> {
    if i == j {
        groups
    } else if grouped(groups, i) && grouped(groups, j) {
        let a = holder(groups, i);
        let b = holder(groups, j);
        if a == b {
            groups
        } else if a < b {
            groups.update(a, groups[a] + groups[b]).remove(b)
        } else {
            groups.update(b, groups[b] + groups[a]).remove(a)
        }
    } else if grouped(groups, i) {
        let a = holder(groups, i);
        groups.update(a, groups[a].push(j))
    } else if grouped(groups, j) {
        let b = holder(groups, j);
        groups.update(b, groups[b].push(i))
    } else {
        groups.push(couple(i, j))
    }
}

/// The groups that a run of collisions leaves, taken in the order given.
pub open spec fn grouping(pairs: Seq<(usize, usize)>) -> Seq<Seq<usize>>
    decreases pairs.len(),
{
    if pairs.len() == 0 {
        Seq::empty()
    } else {
        joined(grouping(pairs.drop_last()), pairs.last().0, pairs.last().1)
    }
}

/// `x` and `y` are linked by the collisions in `pairs`: they are the same body,
/// or a chain of collisions leads from one to the other.
pub open spec fn linked(pairs: Seq<(usize, usize)>, x: usize, y: usize) -> bool
    decreases pairs.len(),
{
    if pairs.len() == 0 {
        x == y
    } else {
        let before = pairs.drop_last();
        let (i, j) = pairs.last();
        ||| linked(before, x, y)
        ||| (linked(before, x, i) && linked(before, j, y))
        ||| (linked(before, x, j) && linked(before, i, y))
    }
}

/// The groups as sequences of bodies.
spec fn members(groups: Seq<Vec<usize>>) -> Seq<Seq<usize>> {
    Seq::new(groups.len(), |g: int| groups[g]@)
}

/// The collision groups found so far in one pass over the pairs of bodies.
pub struct CollisionGroups {
    groups: Vec<Vec<usize>>,
}

impl View for CollisionGroups {
    type V = Seq<Seq<usize>>;

    closed spec fn view(&self) -> Seq<Seq<usize>> {
        members(self.groups@)
    }
}

impl CollisionGroups {
    #[verifier::type_invariant]
    spec fn inv(&self) -> bool {
        well_grouped(self@)
    }

    /// No groups yet.
    pub fn new() -> (r: Self)
        ensures
            r@ == Seq::<Seq<usize>>::empty(),
    {
        let r = CollisionGroups { groups: Vec::new() };
        assert(r@ =~= Seq::<Seq<usize>>::empty());
        r
    }

    /// How many groups there are.
    pub fn len(&self) -> (n: usize)
        ensures
            n == self@.len(),
    {
        self.groups.len()
    }

    /// The members of group `g`, in the order in which they joined it.
    pub fn group(&self, g: usize) -> (r: &Vec<usize>)
        requires
            g < self@.len(),
        ensures
            r@ == self@[g as int],
    {
        &self.groups[g]
    }

    /// The groups as plain lists, in the order in which they were founded.
    pub fn into_groups(self) -> (r: Vec<Vec<usize>>)
        ensures
            well_grouped(self@),
            r@.len() == self@.len(),
            forall|g: int| 0 <= g < r@.len() ==> (#[trigger] r@[g])@ == self@[g],
    {
        proof {
            use_type_invariant(&self);
        }
        self.groups
    }

    /// The index of the group that holds `x`, if one does.
    pub fn find(&self, x: usize) -> (r: Option<usize>)
        ensures
            well_grouped(self@),
            match r {
                Some(g) => grouped(self@, x) && g == holder(self@, x),
                None => !grouped(self@, x),
            },
    {
        proof {
            use_type_invariant(self);
        }
        find_holder(&self.groups, x)
    }

    /// Takes the collision of body `i` with body `j` into account.
    pub fn record(&mut self, i: usize, j: usize)
        ensures
            final(self)@ == joined(old(self)@, i, j),
            well_grouped(final(self)@),
    {
        proof {
            use_type_invariant(&*self);
        }
        let mut groups: Vec<Vec<usize>> = Vec::new();
        assert(members(groups@) =~= Seq::<Seq<usize>>::empty());
        core::mem::swap(&mut self.groups, &mut groups);
        join(&mut groups, i, j);
        core::mem::swap(&mut self.groups, &mut groups);
    }
}

/// Groups the bodies that the collisions in `pairs` link, taking the
/// collisions in the order given.
pub fn group_collisions(pairs: &Vec<(usize, usize)>) -> (r: CollisionGroups)
    ensures
        r@ == grouping(pairs@),
        well_grouped(r@),
{
    let mut r = CollisionGroups::new();
    let mut k: usize = 0;
    assert(pairs@.take(0) =~= Seq::<(usize, usize)>::empty());
    while k < pairs.len()
        invariant
            k <= pairs@.len(),
            r@ == grouping(pairs@.take(k as int)),
            well_grouped(r@),
        decreases pairs@.len() - k,
    {
        let (i, j) = pairs[k];
        r.record(i, j);
        proof {
            assert(pairs@.take(k + 1).drop_last() =~= pairs@.take(k as int));
            assert(pairs@.take(k + 1).last() == pairs@[k as int]);
        }
        k += 1;
    }
    assert(pairs@.take(k as int) =~= pairs@);
    r
}

/// The index of the group that holds `x`, if one does.
fn find_holder(groups: &Vec<Vec<usize>>, x: usize) -> (r: Option<usize>)
    requires
        well_grouped(members(groups@)),
    ensures
        match r {
            Some(g) => grouped(members(groups@), x) && g == holder(members(groups@), x),
            None => !grouped(members(groups@), x),
        },
{
    let mut g: usize = 0;
    while g < groups.len()
        invariant
            well_grouped(members(groups@)),
            g <= groups@.len(),
            forall|h: int| 0 <= h < g ==> !(#[trigger] members(groups@)[h]).contains(x),
        decreases groups@.len() - g,
    {
        if has_member(&groups[g], x) {
            proof {
                lemma_one_holder(members(groups@), x, g as int);
            }
            return Some(g);
        }
        g += 1;
    }
    None
}

/// Takes the collision of `i` with `j` into account in `groups`.
fn join(groups: &mut Vec<Vec<usize>>, i: usize, j: usize)
    requires
        well_grouped(members(old(groups)@)),
    ensures
        members(final(groups)@) == joined(members(old(groups)@), i, j),
        well_grouped(members(final(groups)@)),
{
    let ghost before = members(groups@);
    proof {
        lemma_joined(before, i, j);
    }
    if i == j {
        return;
    }
    let a = find_holder(groups, i);
    let b = find_holder(groups, j);
    match (a, b) {
        (None, None) => {
            let mut founded: Vec<usize> = Vec::new();
            founded.push(i);
            founded.push(j);
            assert(founded@ =~= seq![i, j]);
            groups.push(founded);
            assert(members(groups@) =~= before.push(couple(i, j)));
        },
        (Some(a), None) => {
            groups[a].push(j);
            assert(members(groups@) =~= before.update(a as int, before[a as int].push(j)));
        },
        (None, Some(b)) => {
            groups[b].push(i);
            assert(members(groups@) =~= before.update(b as int, before[b as int].push(i)));
        },
        (Some(a), Some(b)) => {
            if a != b {
                let (lo, hi) = if a < b {
                    (a, b)
                } else {
                    (b, a)
                };
                let mut moved = groups.remove(hi);
                groups[lo].append(&mut moved);
                assert(members(groups@) =~= before.update(
                    lo as int,
                    before[lo as int] + before[hi as int],
                ).remove(hi as int));
            }
        },
    }
}

/// Where `x` stands: the index of its group, or -1 where no group holds it.
pub open spec fn site(groups: Seq<Seq<usize>>, x: usize) -> int {
    if grouped(groups, x) {
        holder(groups, x)
    } else {
        -1
    }
}

/// A body is grouped exactly when its site is a group's index.
pub proof fn lemma_site_sign(groups: Seq<Seq<usize>>, x: usize)
    ensures
        grouped(groups, x) <==> 0 <= site(groups, x) < groups.len(),
        !grouped(groups, x) <==> site(groups, x) == -1,
        grouped(groups, x) ==> groups[site(groups, x)].contains(x),
{
    if grouped(groups, x) {
        let h = holder(groups, x);
        assert(0 <= h < groups.len() && groups[h].contains(x));
    }
}

/// In disjoint groups, two bodies are together exactly when they are the same
/// body or stand in the same group.
pub proof fn lemma_together_by_site(groups: Seq<Seq<usize>>, x: usize, y: usize)
    requires
        disjoint(groups),
    ensures
        together(groups, x, y) <==> (x == y || (site(groups, x) >= 0 && site(groups, x) == site(
            groups,
            y,
        ))),
{
    if x != y {
        if together(groups, x, y) {
            let g = choose|g: int|
                0 <= g < groups.len() && #[trigger] groups[g].contains(x) && groups[g].contains(y);
            lemma_one_holder(groups, x, g);
            lemma_one_holder(groups, y, g);
        }
        if site(groups, x) >= 0 && site(groups, x) == site(groups, y) {
            let g = holder(groups, x);
            assert(groups[g].contains(x));
            let h = holder(groups, y);
            assert(groups[h].contains(y));
        }
    }
}

/// Two ungrouped bodies found a group of their own.
proof fn lemma_found(groups: Seq<Seq<usize>>, i: usize, j: usize)
    requires
        well_grouped(groups),
        i != j,
        !grouped(groups, i),
        !grouped(groups, j),
    ensures
        well_grouped(groups.push(couple(i, j))),
        forall|x: usize| #[trigger]
            site(groups.push(couple(i, j)), x) == if x == i || x == j {
                groups.len() as int
            } else {
                site(groups, x)
            },
{
    let n = groups.len() as int;
    let after = groups.push(couple(i, j));
    assert forall|g: int, k: int, h: int, l: int|
        0 <= g < after.len() && 0 <= k < after[g].len() && 0 <= h < after.len() && 0 <= l
            < after[h].len() && #[trigger] after[g][k] == #[trigger] after[h][l] implies g == h
        && k == l by {
        if g < n && h < n {
            assert(groups[g][k] == groups[h][l]);
        } else if g < n {
            assert(groups[g].contains(groups[g][k]));
        } else if h < n {
            assert(groups[h].contains(groups[h][l]));
        }
    }
    assert forall|x: usize| #[trigger]
        site(after, x) == if x == i || x == j {
            n
        } else {
            site(groups, x)
        } by {
        if x == i || x == j {
            assert(after[n][0] == i && after[n][1] == j);
            assert(after[n].contains(x));
            lemma_one_holder(after, x, n);
        } else if grouped(groups, x) {
            let g = holder(groups, x);
            assert(after[g].contains(x));
            lemma_one_holder(after, x, g);
        } else {
            assert forall|g: int| 0 <= g < after.len() implies !(#[trigger] after[g]).contains(
                x,
            ) by {
                if g < n {
                    assert(after[g] == groups[g]);
                }
            }
        }
    }
}

/// An ungrouped body `j` joins group `a`.
proof fn lemma_extended(groups: Seq<Seq<usize>>, a: int, j: usize)
    requires
        well_grouped(groups),
        0 <= a < groups.len(),
        !grouped(groups, j),
    ensures
        well_grouped(groups.update(a, groups[a].push(j))),
        forall|x: usize| #[trigger]
            site(groups.update(a, groups[a].push(j)), x) == if x == j {
                a
            } else {
                site(groups, x)
            },
{
    let after = groups.update(a, groups[a].push(j));
    assert forall|g: int, k: int, h: int, l: int|
        0 <= g < after.len() && 0 <= k < after[g].len() && 0 <= h < after.len() && 0 <= l
            < after[h].len() && #[trigger] after[g][k] == #[trigger] after[h][l] implies g == h
        && k == l by {
        let fresh_g = g == a && k == groups[a].len();
        let fresh_h = h == a && l == groups[a].len();
        if !fresh_g && !fresh_h {
            assert(groups[g][k] == groups[h][l]);
        } else if !fresh_g {
            assert(groups[g].contains(groups[g][k]));
        } else if !fresh_h {
            assert(groups[h].contains(groups[h][l]));
        }
    }
    assert forall|x: usize| #[trigger]
        site(after, x) == if x == j {
            a
        } else {
            site(groups, x)
        } by {
        broadcast use vstd::seq_lib::lemma_seq_contains_after_push;

        if x == j {
            assert(after[a].contains(x));
            lemma_one_holder(after, x, a);
        } else if grouped(groups, x) {
            let g = holder(groups, x);
            assert(after[g].contains(x));
            lemma_one_holder(after, x, g);
        } else {
            assert forall|g: int| 0 <= g < after.len() implies !(#[trigger] after[g]).contains(
                x,
            ) by {
                if g != a {
                    assert(after[g] == groups[g]);
                }
            }
        }
    }
}

/// The later group `hi` is appended to the earlier group `lo` and leaves the list.
proof fn lemma_united(groups: Seq<Seq<usize>>, lo: int, hi: int)
    requires
        well_grouped(groups),
        0 <= lo < hi < groups.len(),
    ensures
        well_grouped(groups.update(lo, groups[lo] + groups[hi]).remove(hi)),
        forall|x: usize| #[trigger]
            site(groups.update(lo, groups[lo] + groups[hi]).remove(hi), x) == if site(groups, x)
                == hi {
                lo
            } else if site(groups, x) > hi {
                site(groups, x) - 1
            } else {
                site(groups, x)
            },
{
    let mid = groups.update(lo, groups[lo] + groups[hi]);
    let after = mid.remove(hi);
    mid.remove_ensures(hi);
    assert forall|g: int| 0 <= g < after.len() implies #[trigger] after[g] == if g == lo {
        groups[lo] + groups[hi]
    } else if g >= hi {
        groups[g + 1]
    } else {
        groups[g]
    } by {}
    assert forall|g: int, k: int, h: int, l: int|
        0 <= g < after.len() && 0 <= k < after[g].len() && 0 <= h < after.len() && 0 <= l
            < after[h].len() && #[trigger] after[g][k] == #[trigger] after[h][l] implies g == h
        && k == l by {
        let (g0, k0) = if g == lo && k >= groups[lo].len() {
            (hi, k - groups[lo].len())
        } else if g >= hi {
            (g + 1, k)
        } else {
            (g, k)
        };
        let (h0, l0) = if h == lo && l >= groups[lo].len() {
            (hi, l - groups[lo].len())
        } else if h >= hi {
            (h + 1, l)
        } else {
            (h, l)
        };
        assert(after[g][k] == groups[g0][k0]);
        assert(after[h][l] == groups[h0][l0]);
        assert(g0 == h0 && k0 == l0);
    }
    assert forall|x: usize| #[trigger]
        site(after, x) == if site(groups, x) == hi {
            lo
        } else if site(groups, x) > hi {
            site(groups, x) - 1
        } else {
            site(groups, x)
        } by {
        broadcast use vstd::seq_lib::lemma_seq_concat_contains_all_elements;

        if grouped(groups, x) {
            let g = holder(groups, x);
            assert(groups[g].contains(x));
            let g1 = if g == hi {
                lo
            } else if g > hi {
                g - 1
            } else {
                g
            };
            assert(after[g1].contains(x));
            lemma_one_holder(after, x, g1);
        } else {
            assert forall|g: int| 0 <= g < after.len() implies !(#[trigger] after[g]).contains(
                x,
            ) by {
                assert(!groups[lo].contains(x));
                assert(!groups[hi].contains(x));
                if g >= hi {
                    assert(!groups[g + 1].contains(x));
                } else {
                    assert(!groups[g].contains(x));
                }
            }
        }
    }
}

/// One more collision keeps the groups well formed, and puts together exactly
/// what was together already and what the collision connects.
pub proof fn lemma_joined(groups: Seq<Seq<usize>>, i: usize, j: usize)
    requires
        well_grouped(groups),
    ensures
        well_grouped(joined(groups, i, j)),
        forall|x: usize, y: usize| #[trigger]
            together(joined(groups, i, j), x, y) <==> {
                ||| together(groups, x, y)
                ||| (together(groups, x, i) && together(groups, j, y))
                ||| (together(groups, x, j) && together(groups, i, y))
            },
        forall|x: usize|
            grouped(joined(groups, i, j), x) <==> grouped(groups, x) || (i != j && (x == i || x
                == j)),
{
    let after = joined(groups, i, j);
    if i == j {
    } else if grouped(groups, i) && grouped(groups, j) {
        let a = holder(groups, i);
        let b = holder(groups, j);
        if a == b {
        } else if a < b {
            lemma_united(groups, a, b);
        } else {
            lemma_united(groups, b, a);
        }
    } else if grouped(groups, i) {
        lemma_extended(groups, holder(groups, i), j);
    } else if grouped(groups, j) {
        lemma_extended(groups, holder(groups, j), i);
    } else {
        lemma_found(groups, i, j);
    }
    assert forall|x: usize, y: usize| #[trigger]
        together(after, x, y) <==> {
            ||| together(groups, x, y)
            ||| (together(groups, x, i) && together(groups, j, y))
            ||| (together(groups, x, j) && together(groups, i, y))
        } by {
        lemma_together_by_site(after, x, y);
        lemma_together_by_site(groups, x, y);
        lemma_together_by_site(groups, x, i);
        lemma_together_by_site(groups, j, y);
        lemma_together_by_site(groups, x, j);
        lemma_together_by_site(groups, i, y);
        lemma_site_sign(after, i);
        lemma_site_sign(after, j);
    }
    assert forall|x: usize|
        grouped(after, x) <==> grouped(groups, x) || (i != j && (x == i || x == j)) by {
        lemma_site_sign(after, x);
        lemma_site_sign(groups, x);
        lemma_site_sign(groups, i);
        lemma_site_sign(groups, j);
    }
}

/// One more collision founds at most one group, and none where either of the
/// two stands in a group already.
pub proof fn lemma_joined_len(groups: Seq<Seq<usize>>, i: usize, j: usize)
    requires
        well_grouped(groups),
    ensures
        joined(groups, i, j).len() <= groups.len() + 1,
        grouped(groups, i) || grouped(groups, j) || i == j ==> joined(groups, i, j).len()
            <= groups.len(),
{
    if i != j && grouped(groups, i) && grouped(groups, j) {
        let a = holder(groups, i);
        let b = holder(groups, j);
        lemma_site_sign(groups, i);
        lemma_site_sign(groups, j);
        if a < b {
            groups.update(a, groups[a] + groups[b]).remove_ensures(b);
        } else if b < a {
            groups.update(b, groups[b] + groups[a]).remove_ensures(a);
        }
    }
}

/// The groups of any run of collisions are well formed, and they gather
/// exactly the bodies that the collisions link: two different bodies share a
/// group if and only if a chain of collisions leads from one to the other.
pub proof fn lemma_grouping_gathers_linked(pairs: Seq<(usize, usize)>)
    ensures
        well_grouped(grouping(pairs)),
        forall|x: usize, y: usize| #[trigger]
            together(grouping(pairs), x, y) <==> linked(pairs, x, y),
    decreases pairs.len(),
{
    if pairs.len() == 0 {
        assert forall|x: usize, y: usize| #[trigger]
            together(grouping(pairs), x, y) <==> linked(pairs, x, y) by {}
    } else {
        let before = pairs.drop_last();
        let (i, j) = pairs.last();
        lemma_grouping_gathers_linked(before);
        lemma_joined(grouping(before), i, j);
        assert forall|x: usize, y: usize| #[trigger]
            together(grouping(pairs), x, y) <==> linked(pairs, x, y) by {
            assert(together(grouping(before), x, y) <==> linked(before, x, y));
            assert(together(grouping(before), x, i) <==> linked(before, x, i));
            assert(together(grouping(before), j, y) <==> linked(before, j, y));
            assert(together(grouping(before), x, j) <==> linked(before, x, j));
            assert(together(grouping(before), i, y) <==> linked(before, i, y));
        }
    }
}

/// A body stands in a group exactly when it has collided with another body.
pub proof fn lemma_grouped_bodies_collided(pairs: Seq<(usize, usize)>, x: usize)
    ensures
        grouped(grouping(pairs), x) <==> exists|k: int|
            0 <= k < pairs.len() && (#[trigger] pairs[k]).0 != pairs[k].1 && (pairs[k].0 == x
                || pairs[k].1 == x),
    decreases pairs.len(),
{
    if pairs.len() > 0 {
        let before = pairs.drop_last();
        let (i, j) = pairs.last();
        let n = before.len() as int;
        lemma_grouping_gathers_linked(before);
        lemma_joined(grouping(before), i, j);
        lemma_grouped_bodies_collided(before, x);
        if grouped(grouping(before), x) {
            let k = choose|k: int|
                0 <= k < before.len() && (#[trigger] before[k]).0 != before[k].1 && (before[k].0
                    == x || before[k].1 == x);
            assert(pairs[k] == before[k]);
        }
        if i != j && (x == i || x == j) {
            assert(pairs[n] == (i, j));
        }
        if exists|k: int|
            0 <= k < pairs.len() && (#[trigger] pairs[k]).0 != pairs[k].1 && (pairs[k].0 == x
                || pairs[k].1 == x) {
            let k = choose|k: int|
                0 <= k < pairs.len() && (#[trigger] pairs[k]).0 != pairs[k].1 && (pairs[k].0 == x
                    || pairs[k].1 == x);
            if k < n {
                assert(before[k] == pairs[k]);
            }
        }
    }
}

/// Being linked is an equivalence: every body is linked to itself, the order
/// of the two bodies does not matter, and links chain.
pub proof fn lemma_linked_is_equivalence(pairs: Seq<(usize, usize)>, x: usize, y: usize, z: usize)
    ensures
        linked(pairs, x, x),
        linked(pairs, x, y) ==> linked(pairs, y, x),
        linked(pairs, x, y) && linked(pairs, y, z) ==> linked(pairs, x, z),
{
    let groups = grouping(pairs);
    lemma_grouping_gathers_linked(pairs);
    assert(together(groups, x, x) <==> linked(pairs, x, x));
    assert(together(groups, x, y) <==> linked(pairs, x, y));
    assert(together(groups, y, x) <==> linked(pairs, y, x));
    assert(together(groups, y, z) <==> linked(pairs, y, z));
    assert(together(groups, x, z) <==> linked(pairs, x, z));
    lemma_together_by_site(groups, x, y);
    lemma_together_by_site(groups, y, x);
    lemma_together_by_site(groups, y, z);
    lemma_together_by_site(groups, x, z);
}

/// Two bodies that collided are linked.
pub proof fn lemma_collided_are_linked(pairs: Seq<(usize, usize)>, k: int)
    requires
        0 <= k < pairs.len(),
    ensures
        linked(pairs, pairs[k].0, pairs[k].1),
    decreases pairs.len(),
{
    let before = pairs.drop_last();
    let (i, j) = pairs.last();
    if k == pairs.len() - 1 {
        lemma_linked_is_equivalence(before, i, i, i);
        lemma_linked_is_equivalence(before, j, j, j);
    } else {
        lemma_collided_are_linked(before, k);
    }
}

/// `rel` holds of every body with itself, in both directions, and along chains.
pub open spec fn is_equivalence(rel: spec_fn(usize, usize) -> bool) -> bool {
    &&& forall|x: usize| #[trigger] rel(x, x)
    &&& forall|x: usize, y: usize| #[trigger] rel(x, y) ==> rel(y, x)
    &&& forall|x: usize, y: usize, z: usize| #[trigger] rel(x, y) && #[trigger] rel(y, z) ==> rel(x, z)
}

/// Being linked is the least equivalence that holds of the bodies that
/// collided: whatever equivalence holds of them holds of all linked bodies.
pub proof fn lemma_linked_is_least(
    pairs: Seq<(usize, usize)>,
    rel: spec_fn(usize, usize) -> bool,
    x: usize,
    y: usize,
)
    requires
        is_equivalence(rel),
        forall|k: int| 0 <= k < pairs.len() ==> rel((#[trigger] pairs[k]).0, pairs[k].1),
        linked(pairs, x, y),
    ensures
        rel(x, y),
    decreases pairs.len(),
{
    if pairs.len() > 0 {
        let before = pairs.drop_last();
        let (i, j) = pairs.last();
        assert forall|k: int| 0 <= k < before.len() implies rel(
            (#[trigger] before[k]).0,
            before[k].1,
        ) by {
            assert(before[k] == pairs[k]);
        }
        assert(rel(i, j));
        assert(rel(j, i));
        if linked(before, x, y) {
            lemma_linked_is_least(before, rel, x, y);
        } else if linked(before, x, i) && linked(before, j, y) {
            lemma_linked_is_least(before, rel, x, i);
            lemma_linked_is_least(before, rel, j, y);
            assert(rel(x, j));
        } else {
            lemma_linked_is_least(before, rel, x, j);
            lemma_linked_is_least(before, rel, i, y);
            assert(rel(x, i));
        }
    }
}

/// Collisions chain: where `a` has collided with `b` and `b` with `c`, one
/// group holds `a` and `c`, though the two never touched.
pub proof fn lemma_chain_shares_group(
    pairs: Seq<(usize, usize)>,
    a: usize,
    b: usize,
    c: usize,
    k: int,
    l: int,
)
    requires
        0 <= k < pairs.len(),
        0 <= l < pairs.len(),
        pairs[k] == (a, b) || pairs[k] == (b, a),
        pairs[l] == (b, c) || pairs[l] == (c, b),
        a != c,
    ensures
        exists|g: int|
            0 <= g < grouping(pairs).len() && #[trigger] grouping(pairs)[g].contains(a)
                && grouping(pairs)[g].contains(c),
{
    lemma_collided_are_linked(pairs, k);
    lemma_collided_are_linked(pairs, l);
    lemma_linked_is_equivalence(pairs, a, b, c);
    lemma_linked_is_equivalence(pairs, b, a, c);
    lemma_linked_is_equivalence(pairs, c, b, a);
    lemma_linked_is_equivalence(pairs, b, c, a);
    lemma_grouping_gathers_linked(pairs);
    assert(together(grouping(pairs), a, c) <==> linked(pairs, a, c));
}

/// Whether `x` is among `group`.
fn has_member(group: &Vec<usize>, x: usize) -> (r: bool)
    ensures
        r == group@.contains(x),
{
    let mut k: usize = 0;
    while k < group.len()
        invariant
            k <= group@.len(),
            forall|l: int| 0 <= l < k ==> group@[l] != x,
        decreases group@.len() - k,
    {
        if group[k] == x {
            return true;
        }
        k += 1;
    }
    false
}

/// In disjoint groups, the group that holds `x` is the holder of `x`.
pub proof fn lemma_one_holder(groups: Seq<Seq<usize>>, x: usize, g: int)
    requires
        disjoint(groups),
        0 <= g < groups.len(),
        groups[g].contains(x),
    ensures
        grouped(groups, x),
        holder(groups, x) == g,
{
    let h = holder(groups, x);
    assert(0 <= h < groups.len() && groups[h].contains(x));
    let k = choose|k: int| 0 <= k < groups[g].len() && groups[g][k] == x;
    let l = choose|l: int| 0 <= l < groups[h].len() && groups[h][l] == x;
    assert(groups[g][k] == groups[h][l]);
}

} // verus!

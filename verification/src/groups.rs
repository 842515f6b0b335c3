use vstd::prelude::*;
use vstd::multiset::Multiset;

use crate::name_manager::{NameHandle, UNKNOWN_HANDLE};
use crate::values_manager::{Values, ValuesManager};
use vstd::slice::slice_subrange;

verus! {

/// One step of a grouping path: a group, or the name of a value (a damage or heal
/// ability) that groups its hits.
#[derive(Debug, Clone, Copy, PartialEq, Eq, Structural, PartialOrd, Ord, Hash)]
pub enum GroupPathSegment {
    Group(NameHandle),
    Value(NameHandle),
}

impl GroupPathSegment {
    pub open spec fn spec_name(self) -> NameHandle {
        match self {
            GroupPathSegment::Group(n) => n,
            GroupPathSegment::Value(n) => n,
        }
    }

    /// The name that the segment stands for.
    pub fn name(&self) -> (res: NameHandle)
        ensures
            res == self.spec_name(),
    {
        match *self {
            GroupPathSegment::Group(n) => n,
            GroupPathSegment::Value(n) => n,
        }
    }

    pub fn is_value(&self) -> (res: bool)
        ensures
            res == (self is Value),
    {
        if let GroupPathSegment::Value(_) = self {
            return true;
        }
        false
    }
}

impl Default for GroupPathSegment {
    fn default() -> (res: Self)
        ensures
            res == GroupPathSegment::Group(NameHandle(UNKNOWN_HANDLE)),
    {
        GroupPathSegment::Group(NameHandle::unknown())
    }
}

/// A node of the grouping tree of damage or heal values. A leaf owns the values
/// added to it; a branch groups its sub groups, which have distinct names.
#[derive(Debug)]
pub struct Group<T> {
    pub segment: GroupPathSegment,
    pub sub_groups: Vec<Group<T>>,
    pub values: Values<T>,
    pub damage_types: Vec<NameHandle>,
    pub kills: Vec<(NameHandle, u32)>,
}

/// What the tables read of a group: its name, its sub groups and its values.
pub trait AnalysisGroup: Sized {
    type Value;

    spec fn spec_group_name(&self) -> NameHandle;

    spec fn spec_sub_groups(&self) -> Seq<Self>;

    spec fn spec_values(&self) -> Values<Self::Value>;

    /// The name of the group's segment.
    fn name(&self) -> (res: NameHandle)
        ensures
            res == self.spec_group_name(),
    ;

    /// The sub groups.
    fn sub_groups(&self) -> (res: &Vec<Self>)
        ensures
            res@ == self.spec_sub_groups(),
    ;

    /// The values: a leaf's own, or a branch's range in the storage.
    fn values(&self) -> (res: &Values<Self::Value>)
        ensures
            *res == self.spec_values(),
    ;
}

impl<T> AnalysisGroup for Group<T> {
    type Value = T;

    open spec fn spec_group_name(&self) -> NameHandle {
        self.segment.spec_name()
    }

    open spec fn spec_sub_groups(&self) -> Seq<Self> {
        self.sub_groups@
    }

    open spec fn spec_values(&self) -> Values<T> {
        self.values
    }

    fn name(&self) -> (res: NameHandle) {
        self.segment.name()
    }

    fn sub_groups(&self) -> (res: &Vec<Self>) {
        &self.sub_groups
    }

    fn values(&self) -> (res: &Values<T>) {
        &self.values
    }
}

/// A group of damage hits.
pub type DamageGroup<T> = Group<T>;

/// A group of heal ticks.
pub type HealGroup<T> = Group<T>;

/// Whether the groups in `s` have distinct names.
pub open spec fn distinct_names<T>(s: Seq<Group<T>>) -> bool {
    forall|i: int, j: int|
        0 <= i < j < s.len() ==> s[i].segment.spec_name() != s[j].segment.spec_name()
}

/// Whether the handles in `s` are distinct.
pub open spec fn distinct_handles(s: Seq<NameHandle>) -> bool {
    forall|i: int, j: int| 0 <= i < j < s.len() ==> s[i] != s[j]
}

/// Whether the keys of the entries in `s` are distinct.
pub open spec fn distinct_keys(s: Seq<(NameHandle, u32)>) -> bool {
    forall|i: int, j: int| 0 <= i < j < s.len() ==> s[i].0 != s[j].0
}

impl<T> Group<T> {
    /// Sub group names are distinct at every level, and damage types and kill entries
    /// hold each handle once.
    pub open spec fn wf(self) -> bool
        decreases self,
    {
        &&& distinct_names(self.sub_groups@)
        &&& distinct_handles(self.damage_types@)
        &&& distinct_keys(self.kills@)
        &&& forall|i: int| 0 <= i < self.sub_groups@.len() ==> (#[trigger] self.sub_groups@[i]).wf()
    }

    /// The number of values stored in the leaves of the tree, below leaves too.
    pub open spec fn stored(self) -> nat
        decreases self,
    {
        let own: nat = match self.values {
            Values::Leaf(v) => v@.len(),
            Values::Branch(_) => 0,
        };
        own + Self::stored_all(self.sub_groups@)
    }

    /// The values in the leaves of the tree whose segment is `seg`, below leaves too.
    pub open spec fn leaf_values(self, seg: GroupPathSegment) -> Multiset<T>
        decreases self,
    {
        let own = match self.values {
            Values::Leaf(v) => if self.segment == seg {
                v@.to_multiset()
            } else {
                Multiset::empty()
            },
            Values::Branch(_) => Multiset::empty(),
        };
        own.add(Self::leaf_values_all(self.sub_groups@, seg))
    }

    /// The values in the leaves of segment `seg` in the trees `s`.
    pub open spec fn leaf_values_all(s: Seq<Group<T>>, seg: GroupPathSegment) -> Multiset<T>
        decreases s,
    {
        if s.len() == 0 {
            Multiset::empty()
        } else {
            Self::leaf_values_all(s.subrange(0, s.len() - 1), seg).add(s[s.len() - 1].leaf_values(seg))
        }
    }

    /// The number of values stored in the trees `s`.
    pub open spec fn stored_all(s: Seq<Group<T>>) -> nat
        decreases s,
    {
        if s.len() == 0 {
            0
        } else {
            Self::stored_all(s.subrange(0, s.len() - 1)) + s[s.len() - 1].stored()
        }
    }
}


/// The kill count of `h` in the entries `s` (the last entry for `h`), or 0.
pub open spec fn count_in(s: Seq<(NameHandle, u32)>, h: NameHandle) -> u32
    decreases s.len(),
{
    if s.len() == 0 {
        0
    } else if s.last().0 == h {
        s.last().1
    } else {
        count_in(s.drop_last(), h)
    }
}

/// `c + 1`, wrapping at `u32::MAX`.
pub open spec fn inc(c: u32) -> u32 {
    if c == u32::MAX {
        0
    } else {
        (c + 1) as u32
    }
}

/// The damage types of a leaf after adding `damage_type` to `types`: the unknown
/// type and known types change nothing; `Shield` is not added beside another type,
/// and another type replaces a `Shield` that is there.
pub open spec fn types_after(
    types: Set<NameHandle>,
    damage_type: NameHandle,
    shield: Option<NameHandle>,
) -> Set<NameHandle> {
    if damage_type.0 == UNKNOWN_HANDLE || types.contains(damage_type) || (shield == Some(
        damage_type,
    ) && !types.is_empty()) {
        types
    } else if shield is Some && shield->0 != damage_type && types.contains(shield->0) {
        types.remove(shield->0).insert(damage_type)
    } else {
        types.insert(damage_type)
    }
}

/// Setting the count of entry `i` changes the count of its key only.
proof fn lemma_count_in_update(s: Seq<(NameHandle, u32)>, i: int, c: u32, h: NameHandle)
    requires
        distinct_keys(s),
        0 <= i < s.len(),
    ensures
        count_in(s, s[i].0) == s[i].1,
        count_in(s.update(i, (s[i].0, c)), h) == if h == s[i].0 {
            c
        } else {
            count_in(s, h)
        },
    decreases s.len(),
{
    let t = s.update(i, (s[i].0, c));
    if i < s.len() - 1 {
        assert(t.drop_last() == s.drop_last().update(i, (s[i].0, c)));
        assert(distinct_keys(s.drop_last()));
        lemma_count_in_update(s.drop_last(), i, c, h);
    } else {
        assert(t.drop_last() == s.drop_last());
    }
}

/// A key without an entry has the count 0.
proof fn lemma_count_in_absent(s: Seq<(NameHandle, u32)>, h: NameHandle)
    requires
        forall|j: int| 0 <= j < s.len() ==> s[j].0 != h,
    ensures
        count_in(s, h) == 0,
    decreases s.len(),
{
    if s.len() > 0 {
        lemma_count_in_absent(s.drop_last(), h);
    }
}

/// Adding a tree adds its stored values.
proof fn lemma_stored_all_push<T>(s: Seq<Group<T>>, x: Group<T>)
    ensures
        Group::<T>::stored_all(s.push(x)) == Group::<T>::stored_all(s) + x.stored(),
{
    let t = s.push(x);
    assert(t.subrange(0, t.len() - 1) == s);
}

/// Replacing a tree replaces its stored values.
proof fn lemma_stored_all_update<T>(s: Seq<Group<T>>, i: int, x: Group<T>)
    requires
        0 <= i < s.len(),
    ensures
        Group::<T>::stored_all(s.update(i, x)) + s[i].stored() == Group::<T>::stored_all(s)
            + x.stored(),
    decreases s.len(),
{
    let t = s.update(i, x);
    let n = s.len();
    assert(s.subrange(0, n - 1).len() == n - 1);
    if i < n - 1 {
        assert(t.subrange(0, n - 1) == s.subrange(0, n - 1).update(i, x));
        lemma_stored_all_update(s.subrange(0, n - 1), i, x);
    } else {
        assert(t.subrange(0, n - 1) == s.subrange(0, n - 1));
    }
}

/// `b` holds the leaf values of `a` and one more `value`, in a leaf of segment `target`.
pub open spec fn gains<T>(a: Group<T>, b: Group<T>, target: GroupPathSegment, value: T) -> bool {
    forall|seg: GroupPathSegment| #[trigger] b.leaf_values(seg) == if seg == target {
        a.leaf_values(seg).insert(value)
    } else {
        a.leaf_values(seg)
    }
}

/// Adding a tree adds its leaf values.
proof fn lemma_leaf_values_all_push<T>(s: Seq<Group<T>>, x: Group<T>, seg: GroupPathSegment)
    ensures
        Group::<T>::leaf_values_all(s.push(x), seg) == Group::<T>::leaf_values_all(s, seg).add(x.leaf_values(seg)),
{
    let t = s.push(x);
    assert(t.subrange(0, t.len() - 1) == s);
}

/// Replacing a tree replaces its leaf values.
proof fn lemma_leaf_values_all_update<T>(s: Seq<Group<T>>, i: int, x: Group<T>, seg: GroupPathSegment)
    requires
        0 <= i < s.len(),
    ensures
        Group::<T>::leaf_values_all(s.update(i, x), seg).add(s[i].leaf_values(seg))
            == Group::<T>::leaf_values_all(s, seg).add(x.leaf_values(seg)),
    decreases s.len(),
{
    broadcast use vstd::multiset::group_multiset_axioms;
    let t = s.update(i, x);
    let n = s.len();
    assert(s.subrange(0, n - 1).len() == n - 1);
    if i < n - 1 {
        assert(t.subrange(0, n - 1) == s.subrange(0, n - 1).update(i, x));
        lemma_leaf_values_all_update(s.subrange(0, n - 1), i, x, seg);
        let a = Group::<T>::leaf_values_all(s.subrange(0, n - 1).update(i, x), seg);
        let b = Group::<T>::leaf_values_all(s.subrange(0, n - 1), seg);
        assert(a.add(s[i].leaf_values(seg)) == b.add(x.leaf_values(seg)));
        assert(Group::<T>::leaf_values_all(t, seg) == a.add(s[n - 1].leaf_values(seg)));
        assert(Group::<T>::leaf_values_all(s, seg) == b.add(s[n - 1].leaf_values(seg)));
        assert forall|c: T| #[trigger] Group::<T>::leaf_values_all(t, seg).add(s[i].leaf_values(seg)).count(c)
            == Group::<T>::leaf_values_all(s, seg).add(x.leaf_values(seg)).count(c) by {
            assert(a.add(s[i].leaf_values(seg)).count(c) == b.add(x.leaf_values(seg)).count(c));
        }
        assert(Group::<T>::leaf_values_all(t, seg).add(s[i].leaf_values(seg)) =~= Group::<T>::leaf_values_all(s, seg).add(x.leaf_values(seg)));
    } else {
        assert(t.subrange(0, n - 1) == s.subrange(0, n - 1));
        assert(Group::<T>::leaf_values_all(t, seg).add(s[i].leaf_values(seg)) =~= Group::<T>::leaf_values_all(s, seg).add(x.leaf_values(seg)));
    }
}

/// The index of the sub group named `h` among `s`, or -1 where there is none.
pub open spec fn sub_index<T>(s: Seq<Group<T>>, h: NameHandle) -> int {
    if exists|i: int| 0 <= i < s.len() && (#[trigger] s[i]).segment.spec_name() == h {
        choose|i: int| 0 <= i < s.len() && (#[trigger] s[i]).segment.spec_name() == h
    } else {
        -1
    }
}

/// Among distinct names, the sub group named `h` is the one at its index.
proof fn lemma_sub_index<T>(s: Seq<Group<T>>, h: NameHandle, i: int)
    requires
        distinct_names(s),
        0 <= i < s.len(),
        s[i].segment.spec_name() == h,
    ensures
        sub_index(s, h) == i,
{
    let j = sub_index(s, h);
    assert(s[j].segment.spec_name() == h);
    if j != i {
        if j < i {
            assert(s[j].segment.spec_name() != s[i].segment.spec_name());
        } else {
            assert(s[i].segment.spec_name() != s[j].segment.spec_name());
        }
    }
}

/// `sub_index` lies within `s`.
proof fn lemma_sub_index_bounds<T>(s: Seq<Group<T>>, h: NameHandle)
    ensures
        -1 <= sub_index(s, h) < s.len(),
        sub_index(s, h) >= 0 ==> s[sub_index(s, h)].segment.spec_name() == h,
{
}

/// The group's own fields stay: segment, values, damage types and kills.
pub open spec fn same_own<T>(a: Group<T>, b: Group<T>) -> bool {
    &&& b.segment == a.segment
    &&& b.values == a.values
    &&& b.damage_types == a.damage_types
    &&& b.kills == a.kills
}

/// The damage types after adding `damage_type` (see `types_after`), or the same types
/// where there is none.
pub open spec fn types_added(
    before: Seq<NameHandle>,
    after: Seq<NameHandle>,
    damage_type: Option<NameHandle>,
    shield: Option<NameHandle>,
) -> bool {
    match damage_type {
        Some(d) => after.to_set() == types_after(before.to_set(), d, shield),
        None => after == before,
    }
}

/// The kills after one more kill of `name` where `kill` holds, or the same kills.
pub open spec fn kill_added(before: Seq<(NameHandle, u32)>, after: Seq<(NameHandle, u32)>, name: NameHandle, kill: bool) -> bool {
    if kill {
        forall|h: NameHandle| #[trigger] count_in(after, h) == if h == name {
            inc(count_in(before, h))
        } else {
            count_in(before, h)
        }
    } else {
        after == before
    }
}

/// The leaf `d` is the leaf `c` with `value` appended, its damage type recorded and a
/// kill of its own name counted where `kill` holds.
pub open spec fn leaf_pushed<T>(
    c: Group<T>,
    d: Group<T>,
    value: T,
    damage_type: Option<NameHandle>,
    shield: Option<NameHandle>,
    kill: bool,
) -> bool {
    &&& c.values is Leaf
    &&& d.values is Leaf
    &&& d.values->Leaf_0@ == c.values->Leaf_0@.push(value)
    &&& d.segment == c.segment
    &&& d.sub_groups == c.sub_groups
    &&& types_added(c.damage_types@, d.damage_types@, damage_type, shield)
    &&& kill_added(c.kills@, d.kills@, c.segment.spec_name(), kill)
}

/// `d` is a new leaf of segment `seg` that holds just `value`, with its damage type and
/// kill.
pub open spec fn new_leaf_holding<T>(
    d: Group<T>,
    seg: GroupPathSegment,
    value: T,
    damage_type: Option<NameHandle>,
    shield: Option<NameHandle>,
    kill: bool,
) -> bool {
    &&& d.segment == seg
    &&& d.sub_groups@.len() == 0
    &&& d.values is Leaf
    &&& d.values->Leaf_0@ == seq![value]
    &&& types_added(Seq::empty(), d.damage_types@, damage_type, shield)
    &&& kill_added(Seq::empty(), d.kills@, seg.spec_name(), kill)
}

/// `d` is a new branch of segment `seg` without damage types or kills of its own.
pub open spec fn fresh_branch<T>(d: Group<T>, seg: GroupPathSegment) -> bool {
    &&& d.segment == seg
    &&& d.values is Branch
    &&& d.damage_types@.len() == 0
    &&& d.kills@.len() == 0
}

/// The sub groups `t` are `s` with `value` filed into the leaf for `seg`: the leaf of
/// that segment among them, else the same search inside the sub group of that name,
/// else a new leaf at the end. Every other sub group stays.
pub open spec fn leaf_filed<T>(
    s: Seq<Group<T>>,
    t: Seq<Group<T>>,
    seg: GroupPathSegment,
    value: T,
    damage_type: Option<NameHandle>,
    shield: Option<NameHandle>,
    kill: bool,
) -> bool
    decreases s,
{
    let i = sub_index(s, seg.spec_name());
    if 0 <= i < s.len() {
        &&& t.len() == s.len()
        &&& forall|j: int| 0 <= j < s.len() && j != i ==> #[trigger] t[j] == s[j]
        &&& if s[i].values is Leaf && s[i].segment == seg {
            leaf_pushed(s[i], t[i], value, damage_type, shield, kill)
        } else {
            same_own(s[i], t[i]) && leaf_filed(
                s[i].sub_groups@,
                t[i].sub_groups@,
                seg,
                value,
                damage_type,
                shield,
                kill,
            )
        }
    } else {
        &&& t.len() == s.len() + 1
        &&& forall|j: int| 0 <= j < s.len() ==> #[trigger] t[j] == s[j]
        &&& new_leaf_holding(t[s.len() as int], seg, value, damage_type, shield, kill)
    }
}

/// The sub groups `t` are `s` with `value` filed along `path`, whose last segment is
/// the outermost: a one segment path names the leaf (see `leaf_filed`), a longer one
/// the branch to file the rest in (see `branch_filed`).
pub open spec fn filed<T>(
    s: Seq<Group<T>>,
    t: Seq<Group<T>>,
    path: Seq<GroupPathSegment>,
    value: T,
    damage_type: Option<NameHandle>,
    shield: Option<NameHandle>,
    kill: bool,
) -> bool
    decreases path.len(), s, 1nat,
{
    if path.len() == 0 {
        false
    } else if path.len() == 1 {
        leaf_filed(s, t, path[0], value, damage_type, shield, kill)
    } else {
        branch_filed(s, t, path.last(), path.drop_last(), value, damage_type, shield, kill)
    }
}

/// The sub groups `t` are `s` with `value` filed along `rest` inside the branch for
/// `seg`: the branch of that segment among them; else, where the sub group of that name
/// is a leaf or a value branch, a new branch in its place that takes it in; else the
/// same search inside the sub group of that name; else a new branch at the end. Every
/// other sub group stays.
pub open spec fn branch_filed<T>(
    s: Seq<Group<T>>,
    t: Seq<Group<T>>,
    seg: GroupPathSegment,
    rest: Seq<GroupPathSegment>,
    value: T,
    damage_type: Option<NameHandle>,
    shield: Option<NameHandle>,
    kill: bool,
) -> bool
    decreases rest.len() + 1, s, 0nat,
{
    let i = sub_index(s, seg.spec_name());
    if 0 <= i < s.len() {
        &&& t.len() == s.len()
        &&& forall|j: int| 0 <= j < s.len() && j != i ==> #[trigger] t[j] == s[j]
        &&& if s[i].values is Branch && s[i].segment == seg {
            same_own(s[i], t[i]) && filed(
                s[i].sub_groups@,
                t[i].sub_groups@,
                rest,
                value,
                damage_type,
                shield,
                kill,
            )
        } else if (s[i].values is Branch && s[i].segment is Value) || s[i].values is Leaf {
            fresh_branch(t[i], seg) && filed(
                seq![s[i]],
                t[i].sub_groups@,
                rest,
                value,
                damage_type,
                shield,
                kill,
            )
        } else {
            same_own(s[i], t[i]) && branch_filed(
                s[i].sub_groups@,
                t[i].sub_groups@,
                seg,
                rest,
                value,
                damage_type,
                shield,
                kill,
            )
        }
    } else {
        &&& t.len() == s.len() + 1
        &&& forall|j: int| 0 <= j < s.len() ==> #[trigger] t[j] == s[j]
        &&& fresh_branch(t[s.len() as int], seg)
        &&& filed(
            Seq::empty(),
            t[s.len() as int].sub_groups@,
            rest,
            value,
            damage_type,
            shield,
            kill,
        )
    }
}

/// Replacing a sub group by one that gains a value makes the group gain it.
proof fn lemma_gains_after_update<T>(a: Group<T>, b: Group<T>, i: int, x: Group<T>, target: GroupPathSegment, value: T)
    requires
        0 <= i < a.sub_groups@.len(),
        b.sub_groups@ == a.sub_groups@.update(i, x),
        b.segment == a.segment,
        b.values == a.values,
        gains(a.sub_groups@[i], x, target, value),
    ensures
        gains(a, b, target, value),
{
    broadcast use vstd::multiset::group_multiset_axioms;
    assert forall|seg: GroupPathSegment| #[trigger] b.leaf_values(seg) == if seg == target {
        a.leaf_values(seg).insert(value)
    } else {
        a.leaf_values(seg)
    } by {
        lemma_leaf_values_all_update(a.sub_groups@, i, x, seg);
        let y = a.sub_groups@[i];
        assert(x.leaf_values(seg) == if seg == target { y.leaf_values(seg).insert(value) } else { y.leaf_values(seg) });
        let nb = Group::<T>::leaf_values_all(b.sub_groups@, seg);
        let na = Group::<T>::leaf_values_all(a.sub_groups@, seg);
        assert(nb.add(y.leaf_values(seg)) == na.add(x.leaf_values(seg)));
        assert forall|c: T| #[trigger] b.leaf_values(seg).count(c) == (if seg == target {
            a.leaf_values(seg).insert(value)
        } else {
            a.leaf_values(seg)
        }).count(c) by {
            assert(nb.add(y.leaf_values(seg)).count(c) == na.add(x.leaf_values(seg)).count(c));
        }
        assert(b.leaf_values(seg) =~= if seg == target {
            a.leaf_values(seg).insert(value)
        } else {
            a.leaf_values(seg)
        });
    }
}

/// Adding a sub group that holds just `value` in a leaf of segment `target` makes the
/// group gain it.
proof fn lemma_gains_after_push<T>(a: Group<T>, b: Group<T>, x: Group<T>, target: GroupPathSegment, value: T)
    requires
        b.sub_groups@ == a.sub_groups@.push(x),
        b.segment == a.segment,
        b.values == a.values,
        forall|seg: GroupPathSegment| #[trigger] x.leaf_values(seg) == if seg == target {
            Multiset::<T>::empty().insert(value)
        } else {
            Multiset::<T>::empty()
        },
    ensures
        gains(a, b, target, value),
{
    broadcast use vstd::multiset::group_multiset_axioms;
    assert forall|seg: GroupPathSegment| #[trigger] b.leaf_values(seg) == if seg == target {
        a.leaf_values(seg).insert(value)
    } else {
        a.leaf_values(seg)
    } by {
        lemma_leaf_values_all_push(a.sub_groups@, x, seg);
        assert(b.leaf_values(seg) =~= if seg == target {
            a.leaf_values(seg).insert(value)
        } else {
            a.leaf_values(seg)
        });
    }
}

impl<T: Copy> Group<T> {
    /// A new leaf without values.
    pub fn new_leaf(segment: GroupPathSegment) -> (res: Self)
        ensures
            res.segment == segment,
            res.values matches Values::Leaf(v) && v@.len() == 0,
            res.sub_groups@.len() == 0,
            res.damage_types@.len() == 0,
            res.kills@.len() == 0,
            res.wf(),
            res.stored() == 0,
    {
        let res = Group {
            segment,
            sub_groups: Vec::new(),
            values: Values::empty_leaf(),
            damage_types: Vec::new(),
            kills: Vec::new(),
        };
        assert(Self::stored_all(res.sub_groups@) == 0);
        res
    }

    /// A new branch without sub groups.
    pub fn new_branch(segment: GroupPathSegment) -> (res: Self)
        ensures
            res.segment == segment,
            res.values is Branch,
            res.sub_groups@.len() == 0,
            res.damage_types@.len() == 0,
            res.kills@.len() == 0,
            res.wf(),
            res.stored() == 0,
    {
        let res = Group {
            segment,
            sub_groups: Vec::new(),
            values: Values::empty_branch(),
            damage_types: Vec::new(),
            kills: Vec::new(),
        };
        assert(Self::stored_all(res.sub_groups@) == 0);
        res
    }

    /// The index of the sub group named `name`.
    pub fn find_sub_group(&self, name: NameHandle) -> (res: Option<usize>)
        ensures
            match res {
                Some(i) => i < self.sub_groups@.len() && self.sub_groups@[i as int].segment.spec_name()
                    == name,
                None => forall|j: int|
                    0 <= j < self.sub_groups@.len() ==> self.sub_groups@[j].segment.spec_name()
                        != name,
            },
    {
        let mut i: usize = 0;
        while i < self.sub_groups.len()
            invariant
                i <= self.sub_groups@.len(),
                forall|j: int| 0 <= j < i ==> self.sub_groups@[j].segment.spec_name() != name,
            decreases self.sub_groups@.len() - i,
        {
            if self.sub_groups[i].segment.name() == name {
                return Some(i);
            }
            i = i + 1;
        }
        None
    }

    /// Counts one more kill of `name`, wrapping at `u32::MAX`.
    pub fn add_kill(&mut self, name: NameHandle)
        requires
            distinct_keys(old(self).kills@),
        ensures
            distinct_keys(final(self).kills@),
            count_in(final(self).kills@, name) == inc(count_in(old(self).kills@, name)),
            forall|h: NameHandle| h != name ==> count_in(final(self).kills@, h) == count_in(old(self).kills@, h),
            final(self).segment == old(self).segment,
            final(self).sub_groups == old(self).sub_groups,
            final(self).values == old(self).values,
            final(self).damage_types == old(self).damage_types,
    {
        let mut i: usize = 0;
        while i < self.kills.len()
            invariant
                i <= self.kills@.len(),
                self.kills@ == old(self).kills@,
                *self == *old(self),
                distinct_keys(self.kills@),
                forall|j: int| 0 <= j < i ==> self.kills@[j].0 != name,
            decreases self.kills@.len() - i,
        {
            if self.kills[i].0 == name {
                let c = self.kills[i].1;
                let ghost old_kills = self.kills@;
                self.kills.set(i, (name, c.wrapping_add(1)));
                proof {
                    assert(self.kills@ == old_kills.update(i as int, (old_kills[i as int].0, inc(c))));
                    lemma_count_in_update(old_kills, i as int, inc(c), name);
                    assert forall|h: NameHandle| h != name implies count_in(self.kills@, h) == count_in(old_kills, h) by {
                        lemma_count_in_update(old_kills, i as int, inc(c), h);
                    }
                    assert forall|a: int, b: int| 0 <= a < b < self.kills@.len() implies self.kills@[a].0 != self.kills@[b].0 by {
                        assert(old_kills[a].0 != old_kills[b].0);
                    }
                }
                return;
            }
            i = i + 1;
        }
        proof {
            lemma_count_in_absent(self.kills@, name);
        }
        let ghost old_kills = self.kills@;
        self.kills.push((name, 1));
        assert(self.kills@.drop_last() == old_kills);
    }

    /// Whether `h` is among the damage types.
    fn has_damage_type(&self, h: NameHandle) -> (res: Option<usize>)
        ensures
            match res {
                Some(i) => i < self.damage_types@.len() && self.damage_types@[i as int] == h,
                None => !self.damage_types@.contains(h),
            },
    {
        let mut i: usize = 0;
        while i < self.damage_types.len()
            invariant
                i <= self.damage_types@.len(),
                forall|j: int| 0 <= j < i ==> self.damage_types@[j] != h,
            decreases self.damage_types@.len() - i,
        {
            if self.damage_types[i] == h {
                return Some(i);
            }
            i = i + 1;
        }
        None
    }

    /// Adds a damage type to a leaf: the unknown type and known types change nothing;
    /// `Shield` is not added beside another type, and another type replaces `Shield`.
    pub fn add_damage_type_non_pool(&mut self, damage_type: NameHandle, shield_handle: Option<NameHandle>)
        requires
            distinct_handles(old(self).damage_types@),
        ensures
            distinct_handles(final(self).damage_types@),
            final(self).damage_types@.to_set() == types_after(
                old(self).damage_types@.to_set(),
                damage_type,
                shield_handle,
            ),
            final(self).segment == old(self).segment,
            final(self).sub_groups == old(self).sub_groups,
            final(self).values == old(self).values,
            final(self).kills == old(self).kills,
    {
        let ghost old_set = self.damage_types@.to_set();
        if damage_type.0 == UNKNOWN_HANDLE {
            return;
        }
        if self.has_damage_type(damage_type).is_some() {
            return;
        }
        if shield_handle == Some(damage_type) && self.damage_types.len() > 0 {
            assert(old_set.contains(self.damage_types@[0]));
            return;
        }
        if shield_handle == Some(damage_type) {
            assert(old_set =~= Set::<NameHandle>::empty());
        } else {
            if let Some(s) = shield_handle {
                if let Some(k) = self.has_damage_type(s) {
                    let ghost before = self.damage_types@;
                    self.damage_types.remove(k);
                    proof {
                        assert forall|x: NameHandle| self.damage_types@.contains(x) <==> old_set.remove(s).contains(x) by {
                            if self.damage_types@.contains(x) {
                                let j = choose|j: int| 0 <= j < self.damage_types@.len() && self.damage_types@[j] == x;
                                if j < k {
                                    assert(before[j] == x);
                                } else {
                                    assert(before[j + 1] == x);
                                }
                            }
                            if old_set.remove(s).contains(x) {
                                let j = choose|j: int| 0 <= j < before.len() && before[j] == x;
                                if j < k {
                                    assert(self.damage_types@[j] == x);
                                } else {
                                    assert(self.damage_types@[j - 1] == x);
                                }
                            }
                        }
                        assert(self.damage_types@.to_set() =~= old_set.remove(s));
                    }
                }
            }
        }
        let ghost before = self.damage_types@;
        self.damage_types.push(damage_type);
        proof {
            assert(self.damage_types@.to_set() =~= before.to_set().insert(damage_type)) by {
                assert forall|x: NameHandle| self.damage_types@.contains(x) <==> before.to_set().insert(damage_type).contains(x) by {
                    if self.damage_types@.contains(x) && x != damage_type {
                        let j = choose|j: int| 0 <= j < self.damage_types@.len() && self.damage_types@[j] == x;
                        assert(before[j] == x);
                    }
                    if before.contains(x) {
                        let j = choose|j: int| 0 <= j < before.len() && before[j] == x;
                        assert(self.damage_types@[j] == x);
                    }
                    if x == damage_type {
                        assert(self.damage_types@[before.len() as int] == x);
                    }
                }
            }
        }
    }
}

impl<T: Copy> Group<T> {
    /// Adds a value to this leaf, with its damage type and whether it was a kill.
    fn add_to_leaf(
        &mut self,
        value: T,
        damage_type: Option<NameHandle>,
        shield_handle: Option<NameHandle>,
        kill: bool,
    )
        requires
            old(self).wf(),
            old(self).values is Leaf,
        ensures
            final(self).wf(),
            final(self).stored() == old(self).stored() + 1,
            final(self).segment == old(self).segment,
            final(self).sub_groups == old(self).sub_groups,
            final(self).values is Leaf,
            final(self).values->Leaf_0@ == old(self).values->Leaf_0@.push(value),
            gains(*old(self), *final(self), old(self).segment, value),
            leaf_pushed(*old(self), *final(self), value, damage_type, shield_handle, kill),
    {
        self.values.push(value);
        if let Some(dt) = damage_type {
            self.add_damage_type_non_pool(dt, shield_handle);
        }
        if kill {
            let name = self.segment.name();
            self.add_kill(name);
        }
        proof {
            broadcast use vstd::multiset::group_multiset_axioms;
            broadcast use vstd::seq_lib::to_multiset_build;
            assert forall|seg: GroupPathSegment| #[trigger] self.leaf_values(seg) == if seg == old(self).segment {
                old(self).leaf_values(seg).insert(value)
            } else {
                old(self).leaf_values(seg)
            } by {
                assert(self.leaf_values(seg) =~= if seg == old(self).segment {
                    old(self).leaf_values(seg).insert(value)
                } else {
                    old(self).leaf_values(seg)
                });
            }
        }
    }

    /// Adds a value to the leaf for `segment` below this group: an existing leaf of that
    /// segment among the sub groups, else the same search inside the sub group of that
    /// name, else a new leaf.
    pub fn leaf_add(
        &mut self,
        segment: GroupPathSegment,
        value: T,
        damage_type: Option<NameHandle>,
        shield_handle: Option<NameHandle>,
        kill: bool,
    )
        requires
            old(self).wf(),
        ensures
            final(self).wf(),
            final(self).stored() == old(self).stored() + 1,
            final(self).segment == old(self).segment,
            final(self).values == old(self).values,
            gains(*old(self), *final(self), segment, value),
            same_own(*old(self), *final(self)),
            leaf_filed(
                old(self).sub_groups@,
                final(self).sub_groups@,
                segment,
                value,
                damage_type,
                shield_handle,
                kill,
            ),
        decreases *old(self),
    {
        match self.find_sub_group(segment.name()) {
            Some(i) => {
                let ghost old_subs = self.sub_groups@;
                let mut child = self.sub_groups.remove(i);
                assert(child == old_subs[i as int]);
                assert(decreases_to!(*old(self) => old_subs[i as int]));
                if child.values.is_leaf() && child.segment == segment {
                    child.add_to_leaf(value, damage_type, shield_handle, kill);
                } else {
                    child.leaf_add(segment, value, damage_type, shield_handle, kill);
                }
                self.sub_groups.insert(i, child);
                proof {
                    assert(self.sub_groups@ == old_subs.update(i as int, child));
                    lemma_sub_index(old_subs, segment.spec_name(), i as int);
                    lemma_gains_after_update(*old(self), *self, i as int, child, segment, value);
                    lemma_stored_all_update(old_subs, i as int, child);
                    assert forall|a: int| 0 <= a < self.sub_groups@.len() implies (#[trigger] self.sub_groups@[a]).wf() by {
                        if a != i {
                            assert(self.sub_groups@[a] == old_subs[a]);
                        }
                    }
                }
            },
            None => {
                let ghost old_subs = self.sub_groups@;
                let mut leaf = Self::new_leaf(segment);
                let ghost empty_leaf = leaf;
                leaf.add_to_leaf(value, damage_type, shield_handle, kill);
                self.sub_groups.push(leaf);
                proof {
                    broadcast use vstd::multiset::group_multiset_axioms;
                    assert forall|seg: GroupPathSegment| #[trigger] empty_leaf.leaf_values(seg) == Multiset::<T>::empty() by {
                        broadcast use vstd::seq_lib::group_to_multiset_ensures;
                        broadcast use vstd::multiset::lemma_multiset_empty_len;
                        let v = empty_leaf.values->Leaf_0@;
                        assert(v.to_multiset().len() == 0);
                        assert(empty_leaf.leaf_values(seg) =~= Multiset::<T>::empty());
                    }
                    assert forall|seg: GroupPathSegment| #[trigger] leaf.leaf_values(seg) == if seg == segment {
                        Multiset::<T>::empty().insert(value)
                    } else {
                        Multiset::<T>::empty()
                    } by {
                        assert(empty_leaf.leaf_values(seg) == Multiset::<T>::empty());
                    }
                    lemma_gains_after_push(*old(self), *self, leaf, segment, value);
                    lemma_stored_all_push(old_subs, leaf);
                    lemma_sub_index_bounds(old_subs, segment.spec_name());
                    assert(empty_leaf.kills@ =~= Seq::<(NameHandle, u32)>::empty());
                    assert(empty_leaf.damage_types@ =~= Seq::<NameHandle>::empty());
                    assert(empty_leaf.values->Leaf_0@.push(value) =~= seq![value]);
                    assert(self.sub_groups@[old_subs.len() as int] == leaf);
                    assert forall|a: int| 0 <= a < self.sub_groups@.len() implies (#[trigger] self.sub_groups@[a]).wf() by {
                        if a < old_subs.len() {
                            assert(self.sub_groups@[a] == old_subs[a]);
                        }
                    }
                }
            },
        }
    }
}

impl<T: Copy> Group<T> {
    /// Adds a value along `path`, whose last segment is the outermost: the last
    /// segment names a branch below this group, the first segment the leaf that takes
    /// the value. A kill is counted for the leaf's name.
    pub fn add_value(
        &mut self,
        path: &[GroupPathSegment],
        value: T,
        damage_type: Option<NameHandle>,
        shield_handle: Option<NameHandle>,
        kill: bool,
    )
        requires
            old(self).wf(),
            path@.len() >= 1,
        ensures
            final(self).wf(),
            final(self).stored() == old(self).stored() + 1,
            final(self).segment == old(self).segment,
            final(self).values == old(self).values,
            gains(*old(self), *final(self), path@[0], value),
            same_own(*old(self), *final(self)),
            filed(
                old(self).sub_groups@,
                final(self).sub_groups@,
                path@,
                value,
                damage_type,
                shield_handle,
                kill,
            ),
        decreases path@.len(), *old(self), 1nat,
    {
        let n = path.len();
        if n == 1 {
            self.leaf_add(path[0], value, damage_type, shield_handle, kill);
        } else {
            let rest = slice_subrange(path, 0, n - 1);
            self.branch_add(path[n - 1], rest, value, damage_type, shield_handle, kill);
        }
    }

    /// Adds a value along `rest` below the branch for `segment`: an existing branch of
    /// that segment among the sub groups; else, where the sub group of that name is a
    /// leaf or a value branch, a new branch that takes it in; else the same search inside
    /// the sub group of that name; else a new branch.
    pub fn branch_add(
        &mut self,
        segment: GroupPathSegment,
        rest: &[GroupPathSegment],
        value: T,
        damage_type: Option<NameHandle>,
        shield_handle: Option<NameHandle>,
        kill: bool,
    )
        requires
            old(self).wf(),
            rest@.len() >= 1,
        ensures
            final(self).wf(),
            final(self).stored() == old(self).stored() + 1,
            final(self).segment == old(self).segment,
            final(self).values == old(self).values,
            gains(*old(self), *final(self), rest@[0], value),
            same_own(*old(self), *final(self)),
            branch_filed(
                old(self).sub_groups@,
                final(self).sub_groups@,
                segment,
                rest@,
                value,
                damage_type,
                shield_handle,
                kill,
            ),
        decreases rest@.len() + 1, *old(self), 0nat,
    {
        match self.find_sub_group(segment.name()) {
            Some(i) => {
                let ghost old_subs = self.sub_groups@;
                let mut child = self.sub_groups.remove(i);
                assert(child == old_subs[i as int]);
                assert(decreases_to!(*old(self) => old_subs[i as int]));
                if child.values.is_branch() && child.segment == segment {
                    child.add_value(rest, value, damage_type, shield_handle, kill);
                    self.sub_groups.insert(i, child);
                    proof {
                        assert(self.sub_groups@ == old_subs.update(i as int, child));
                        lemma_sub_index(old_subs, segment.spec_name(), i as int);
                        lemma_gains_after_update(*old(self), *self, i as int, child, rest@[0], value);
                        self.lemma_after_update(old_subs, i as int, child, old_subs[i as int]);
                    }
                } else if (child.values.is_branch() && child.segment.is_value())
                    || child.values.is_leaf() {
                    let ghost moved = child;
                    let mut branch = Self::new_branch(segment);
                    branch.sub_groups.push(child);
                    proof {
                        lemma_stored_all_push(Seq::<Group<T>>::empty(), moved);
                        assert(branch.sub_groups@ == Seq::<Group<T>>::empty().push(moved));
                        assert(branch.wf());
                        assert(branch.stored() == moved.stored());
                    }
                    let ghost wrapped = branch;
                    proof {
                        broadcast use vstd::multiset::group_multiset_axioms;
                        assert forall|seg: GroupPathSegment| #[trigger] wrapped.leaf_values(seg) == moved.leaf_values(seg) by {
                            lemma_leaf_values_all_push(Seq::<Group<T>>::empty(), moved, seg);
                            assert(wrapped.leaf_values(seg) =~= moved.leaf_values(seg));
                        }
                    }
                    branch.add_value(rest, value, damage_type, shield_handle, kill);
                    self.sub_groups.insert(i, branch);
                    proof {
                        assert(self.sub_groups@ == old_subs.update(i as int, branch));
                        lemma_sub_index(old_subs, segment.spec_name(), i as int);
                        assert(wrapped.sub_groups@ == seq![moved]);
                        assert forall|seg: GroupPathSegment| #[trigger] branch.leaf_values(seg) == if seg == rest@[0] {
                            moved.leaf_values(seg).insert(value)
                        } else {
                            moved.leaf_values(seg)
                        } by {
                            assert(wrapped.leaf_values(seg) == moved.leaf_values(seg));
                        }
                        lemma_gains_after_update(*old(self), *self, i as int, branch, rest@[0], value);
                        self.lemma_after_update(old_subs, i as int, branch, old_subs[i as int]);
                    }
                } else {
                    child.branch_add(segment, rest, value, damage_type, shield_handle, kill);
                    self.sub_groups.insert(i, child);
                    proof {
                        assert(self.sub_groups@ == old_subs.update(i as int, child));
                        lemma_sub_index(old_subs, segment.spec_name(), i as int);
                        lemma_gains_after_update(*old(self), *self, i as int, child, rest@[0], value);
                        self.lemma_after_update(old_subs, i as int, child, old_subs[i as int]);
                    }
                }
            },
            None => {
                let ghost old_subs = self.sub_groups@;
                let mut branch = Self::new_branch(segment);
                let ghost empty_branch = branch;
                branch.add_value(rest, value, damage_type, shield_handle, kill);
                self.sub_groups.push(branch);
                proof {
                    broadcast use vstd::multiset::group_multiset_axioms;
                    assert forall|seg: GroupPathSegment| #[trigger] branch.leaf_values(seg) == if seg == rest@[0] {
                        Multiset::<T>::empty().insert(value)
                    } else {
                        Multiset::<T>::empty()
                    } by {
                        assert(empty_branch.leaf_values(seg) =~= Multiset::<T>::empty());
                    }
                    lemma_gains_after_push(*old(self), *self, branch, rest@[0], value);
                    lemma_sub_index_bounds(old_subs, segment.spec_name());
                    assert(empty_branch.sub_groups@ =~= Seq::<Group<T>>::empty());
                    assert(self.sub_groups@[old_subs.len() as int] == branch);
                    lemma_stored_all_push(old_subs, branch);
                    assert forall|a: int| 0 <= a < self.sub_groups@.len() implies (#[trigger] self.sub_groups@[a]).wf() by {
                        if a < old_subs.len() {
                            assert(self.sub_groups@[a] == old_subs[a]);
                        }
                    }
                }
            },
        }
    }

    /// After the sub group at `i` was replaced by one of the same name, this group is
    /// well formed and stores what the new sub group adds.
    proof fn lemma_after_update(&self, old_subs: Seq<Group<T>>, i: int, x: Group<T>, y: Group<T>)
        requires
            0 <= i < old_subs.len(),
            y == old_subs[i],
            self.sub_groups@ == old_subs.update(i, x),
            distinct_names(old_subs),
            forall|a: int| 0 <= a < old_subs.len() ==> (#[trigger] old_subs[a]).wf(),
            x.wf(),
            x.segment.spec_name() == y.segment.spec_name(),
            distinct_handles(self.damage_types@),
            distinct_keys(self.kills@),
        ensures
            self.wf(),
            Self::stored_all(self.sub_groups@) + y.stored() == Self::stored_all(old_subs) + x.stored(),
    {
        lemma_stored_all_update(old_subs, i, x);
        assert forall|a: int| 0 <= a < self.sub_groups@.len() implies (#[trigger] self.sub_groups@[a]).wf() by {
            if a != i {
                assert(self.sub_groups@[a] == old_subs[a]);
            }
        }
    }
}

/// `a + b`, wrapping at `u32::MAX`.
pub open spec fn wrap_add(a: u32, b: u32) -> u32 {
    if a + b > u32::MAX {
        (a + b - 0x1_0000_0000) as u32
    } else {
        (a + b) as u32
    }
}

/// The kills of `h` summed over the groups `s`, wrapping at `u32::MAX`.
pub open spec fn kill_sum<T>(s: Seq<Group<T>>, h: NameHandle) -> u32
    decreases s.len(),
{
    if s.len() == 0 {
        0
    } else {
        wrap_add(kill_sum(s.drop_last(), h), count_in(s.last().kills@, h))
    }
}

/// The damage types of the groups `s`, together.
pub open spec fn types_union<T>(s: Seq<Group<T>>) -> Set<NameHandle>
    decreases s.len(),
{
    if s.len() == 0 {
        Set::empty()
    } else {
        types_union(s.drop_last()).union(s.last().damage_types@.to_set())
    }
}

impl<T> Group<T> {
    /// The values that the group stands for once its values are recalculated: a leaf's
    /// own values, or the values of the sub groups of a branch one after the other.
    pub open spec fn visible(self) -> Seq<T>
        decreases self,
    {
        match self.values {
            Values::Leaf(v) => v@,
            Values::Branch(_) => Self::visible_all(self.sub_groups@),
        }
    }

    /// The visible values of the groups `s`, one after the other.
    pub open spec fn visible_all(s: Seq<Group<T>>) -> Seq<T>
        decreases s,
    {
        if s.len() == 0 {
            Seq::empty()
        } else {
            Self::visible_all(s.subrange(0, s.len() - 1)) + s[s.len() - 1].visible()
        }
    }

    /// Every branch of the tree names, in `storage`, exactly the values of its leaves.
    pub open spec fn resolves(self, storage: Seq<T>) -> bool
        decreases self,
    {
        &&& self.values.resolvable(storage.len())
        &&& self.values.resolve(storage) == self.visible()
        &&& (self.values is Branch ==> forall|i: int|
            0 <= i < self.sub_groups@.len() ==> (#[trigger] self.sub_groups@[i]).resolves(storage))
    }
}

/// Values added to the storage after a group keep it resolved.
pub proof fn lemma_resolves_extend<T>(g: Group<T>, storage: Seq<T>, more: Seq<T>)
    requires
        g.resolves(storage),
    ensures
        g.resolves(storage + more),
    decreases g,
{
    let all = storage + more;
    if let Values::Branch(r) = g.values {
        assert(all.subrange(r.start as int, r.end as int) == storage.subrange(r.start as int, r.end as int));
        assert forall|i: int| 0 <= i < g.sub_groups@.len() implies (#[trigger] g.sub_groups@[i]).resolves(all) by {
            assert(decreases_to!(g => g.sub_groups@[i]));
            lemma_resolves_extend(g.sub_groups@[i], storage, more);
        }
    }
}

/// Trees that store and show the same values, one for one, do so together.
proof fn lemma_same_totals<T>(a: Seq<Group<T>>, b: Seq<Group<T>>)
    requires
        a.len() == b.len(),
        forall|j: int| 0 <= j < a.len() ==> (#[trigger] a[j]).stored() == b[j].stored() && a[j].visible() == b[j].visible(),
    ensures
        Group::<T>::stored_all(a) == Group::<T>::stored_all(b),
        Group::<T>::visible_all(a) == Group::<T>::visible_all(b),
    decreases a.len(),
{
    if a.len() > 0 {
        let n = a.len() - 1;
        lemma_same_totals(a.subrange(0, n), b.subrange(0, n));
        assert(a[n].stored() == b[n].stored());
    }
}

/// One more tree of a sequence adds its values, kills and damage types.
proof fn lemma_prefix_step<T>(s: Seq<Group<T>>, i: int)
    requires
        0 <= i < s.len(),
    ensures
        Group::<T>::visible_all(s.take(i + 1)) == Group::<T>::visible_all(s.take(i)) + s[i].visible(),
        types_union(s.take(i + 1)) == types_union(s.take(i)).union(s[i].damage_types@.to_set()),
        forall|h: NameHandle| #[trigger] kill_sum(s.take(i + 1), h) == wrap_add(kill_sum(s.take(i), h), count_in(s[i].kills@, h)),
{
    let t = s.take(i + 1);
    assert(t.subrange(0, t.len() - 1) == s.take(i));
    assert(t.drop_last() == s.take(i));
}

impl<T: Copy> Group<T> {
    /// Adds `v` kills of `h`, wrapping at `u32::MAX`.
    fn add_kills(&mut self, h: NameHandle, v: u32)
        requires
            distinct_keys(old(self).kills@),
        ensures
            distinct_keys(final(self).kills@),
            count_in(final(self).kills@, h) == wrap_add(count_in(old(self).kills@, h), v),
            forall|g: NameHandle| g != h ==> count_in(final(self).kills@, g) == count_in(old(self).kills@, g),
            final(self).segment == old(self).segment,
            final(self).sub_groups == old(self).sub_groups,
            final(self).values == old(self).values,
            final(self).damage_types == old(self).damage_types,
    {
        let mut i: usize = 0;
        while i < self.kills.len()
            invariant
                i <= self.kills@.len(),
                *self == *old(self),
                distinct_keys(self.kills@),
                forall|j: int| 0 <= j < i ==> self.kills@[j].0 != h,
            decreases self.kills@.len() - i,
        {
            if self.kills[i].0 == h {
                let c = self.kills[i].1;
                let ghost old_kills = self.kills@;
                self.kills.set(i, (h, c.wrapping_add(v)));
                proof {
                    let nc = wrap_add(c, v);
                    assert(self.kills@ == old_kills.update(i as int, (old_kills[i as int].0, nc)));
                    lemma_count_in_update(old_kills, i as int, nc, h);
                    assert forall|g: NameHandle| g != h implies count_in(self.kills@, g) == count_in(old_kills, g) by {
                        lemma_count_in_update(old_kills, i as int, nc, g);
                    }
                    assert forall|a: int, b: int| 0 <= a < b < self.kills@.len() implies self.kills@[a].0 != self.kills@[b].0 by {
                        assert(old_kills[a].0 != old_kills[b].0);
                    }
                }
                return;
            }
            i = i + 1;
        }
        proof {
            lemma_count_in_absent(self.kills@, h);
        }
        let ghost old_kills = self.kills@;
        self.kills.push((h, v));
        assert(self.kills@.drop_last() == old_kills);
    }

    /// Adds the kill entries `other` (each key once).
    fn merge_kills(&mut self, other: &Vec<(NameHandle, u32)>)
        requires
            distinct_keys(old(self).kills@),
            distinct_keys(other@),
        ensures
            distinct_keys(final(self).kills@),
            forall|h: NameHandle| #[trigger] count_in(final(self).kills@, h) == wrap_add(count_in(old(self).kills@, h), count_in(other@, h)),
            final(self).segment == old(self).segment,
            final(self).sub_groups == old(self).sub_groups,
            final(self).values == old(self).values,
            final(self).damage_types == old(self).damage_types,
    {
        let mut j: usize = 0;
        while j < other.len()
            invariant
                j <= other@.len(),
                distinct_keys(other@),
                distinct_keys(self.kills@),
                self.segment == old(self).segment,
                self.sub_groups == old(self).sub_groups,
                self.values == old(self).values,
                self.damage_types == old(self).damage_types,
                forall|h: NameHandle| #[trigger] count_in(self.kills@, h) == wrap_add(count_in(old(self).kills@, h), count_in(other@.take(j as int), h)),
            decreases other@.len() - j,
        {
            let (h, v) = other[j];
            let ghost before = self.kills@;
            self.add_kills(h, v);
            proof {
                let t = other@.take(j + 1);
                assert(t.drop_last() == other@.take(j as int));
                assert forall|k: int| 0 <= k < other@.take(j as int).len() implies other@.take(j as int)[k].0 != h by {
                    assert(other@[k].0 != other@[j as int].0);
                }
                lemma_count_in_absent(other@.take(j as int), h);
                assert forall|g: NameHandle| #[trigger] count_in(self.kills@, g) == wrap_add(count_in(old(self).kills@, g), count_in(t, g)) by {
                    if g == h {
                        assert(count_in(t, g) == v);
                    } else {
                        assert(count_in(t, g) == count_in(other@.take(j as int), g));
                    }
                }
            }
            j = j + 1;
        }
        assert(other@.take(other@.len() as int) == other@);
    }

    /// Adds the damage types `other`.
    fn merge_damage_types(&mut self, other: &Vec<NameHandle>)
        requires
            distinct_handles(old(self).damage_types@),
        ensures
            distinct_handles(final(self).damage_types@),
            final(self).damage_types@.to_set() == old(self).damage_types@.to_set().union(other@.to_set()),
            final(self).segment == old(self).segment,
            final(self).sub_groups == old(self).sub_groups,
            final(self).values == old(self).values,
            final(self).kills == old(self).kills,
    {
        let mut j: usize = 0;
        while j < other.len()
            invariant
                j <= other@.len(),
                distinct_handles(self.damage_types@),
                self.segment == old(self).segment,
                self.sub_groups == old(self).sub_groups,
                self.values == old(self).values,
                self.kills == old(self).kills,
                self.damage_types@.to_set() == old(self).damage_types@.to_set().union(other@.take(j as int).to_set()),
            decreases other@.len() - j,
        {
            let dt = other[j];
            let ghost before = self.damage_types@;
            if self.has_damage_type(dt).is_none() {
                self.damage_types.push(dt);
                proof {
                    assert(self.damage_types@.to_set() =~= before.to_set().insert(dt)) by {
                        assert forall|x: NameHandle| self.damage_types@.contains(x) <==> before.to_set().insert(dt).contains(x) by {
                            if self.damage_types@.contains(x) && x != dt {
                                let k = choose|k: int| 0 <= k < self.damage_types@.len() && self.damage_types@[k] == x;
                                assert(before[k] == x);
                            }
                            if before.contains(x) {
                                let k = choose|k: int| 0 <= k < before.len() && before[k] == x;
                                assert(self.damage_types@[k] == x);
                            }
                            if x == dt {
                                assert(self.damage_types@[before.len() as int] == x);
                            }
                        }
                    }
                }
            }
            proof {
                let t = other@.take(j + 1);
                assert(t == other@.take(j as int).push(dt));
                assert(t.to_set() =~= other@.take(j as int).to_set().insert(dt)) by {
                    assert forall|x: NameHandle| t.contains(x) <==> other@.take(j as int).to_set().insert(dt).contains(x) by {
                        if t.contains(x) && x != dt {
                            let k = choose|k: int| 0 <= k < t.len() && t[k] == x;
                            assert(other@.take(j as int)[k] == x);
                        }
                        if other@.take(j as int).contains(x) {
                            let k = choose|k: int| 0 <= k < j && other@.take(j as int)[k] == x;
                            assert(t[k] == x);
                        }
                        if x == dt {
                            assert(t[j as int] == x);
                        }
                    }
                }
                assert(self.damage_types@.to_set() =~= old(self).damage_types@.to_set().union(t.to_set()));
            }
            j = j + 1;
        }
        assert(other@.take(other@.len() as int) == other@);
    }

    /// Appends the values of the tree to `manager`, leaf by leaf, and lets every branch
    /// name the range of its leaves' values; a branch recounts its kills and collects the
    /// damage types from its sub groups.
    pub fn recalculate(&mut self, manager: &mut ValuesManager<T>)
        requires
            old(self).wf(),
        ensures
            final(self).wf(),
            final(self).segment == old(self).segment,
            final(self).stored() == old(self).stored(),
            final(self).visible() == old(self).visible(),
            final(manager)@ == old(manager)@ + old(self).visible(),
            final(self).resolves(final(manager)@),
            final(self).sub_groups@.len() == old(self).sub_groups@.len(),
            forall|j: int| 0 <= j < final(self).sub_groups@.len() ==> (#[trigger] final(self).sub_groups@[j]).segment == old(self).sub_groups@[j].segment,
            old(self).values is Leaf ==> *final(self) == *old(self),
            old(self).values is Branch ==> {
                &&& final(self).values is Branch
                &&& forall|h: NameHandle| #[trigger] count_in(final(self).kills@, h) == kill_sum(final(self).sub_groups@, h)
                &&& final(self).damage_types@.to_set() == old(self).damage_types@.to_set().union(types_union(final(self).sub_groups@))
            },
        decreases *old(self),
    {
        if self.values.is_leaf() {
            manager.add_leaf(self.values.get_leaf());
            return;
        }
        let ghost m0 = manager@;
        let ghost old_subs = self.sub_groups@;
        let ghost old_types = self.damage_types@.to_set();
        self.kills.clear();
        let start = manager.len();
        let mut i: usize = 0;
        assert(self.sub_groups@.take(0) == Seq::<Group<T>>::empty());
        while i < self.sub_groups.len()
            invariant
                i <= self.sub_groups@.len(),
                self.sub_groups@.len() == old_subs.len(),
                old_subs == old(self).sub_groups@,
                start == m0.len(),
                self.segment == old(self).segment,
                self.values is Branch,
                distinct_names(self.sub_groups@),
                distinct_handles(self.damage_types@),
                distinct_keys(self.kills@),
                forall|j: int| 0 <= j < self.sub_groups@.len() ==> (#[trigger] self.sub_groups@[j]).wf(),
                forall|j: int| 0 <= j < self.sub_groups@.len() ==> {
                    &&& (#[trigger] self.sub_groups@[j]).segment == old_subs[j].segment
                    &&& self.sub_groups@[j].stored() == old_subs[j].stored()
                    &&& self.sub_groups@[j].visible() == old_subs[j].visible()
                },
                forall|j: int| i <= j < self.sub_groups@.len() ==> #[trigger] self.sub_groups@[j] == old_subs[j],
                forall|j: int| 0 <= j < i ==> (#[trigger] self.sub_groups@[j]).resolves(manager@),
                manager@ == m0 + Self::visible_all(self.sub_groups@.take(i as int)),
                forall|h: NameHandle| #[trigger] count_in(self.kills@, h) == kill_sum(self.sub_groups@.take(i as int), h),
                self.damage_types@.to_set() == old_types.union(types_union(self.sub_groups@.take(i as int))),
            decreases self.sub_groups@.len() - i,
        {
            let ghost subs_before = self.sub_groups@;
            let ghost m_before = manager@;
            let mut child = self.sub_groups.remove(i);
            assert(child == old_subs[i as int]);
            assert(decreases_to!(*old(self) => old_subs[i as int]));
            child.recalculate(manager);
            self.merge_kills(&child.kills);
            self.merge_damage_types(&child.damage_types);
            self.sub_groups.insert(i, child);
            proof {
                let subs = self.sub_groups@;
                assert(subs == subs_before.update(i as int, child));
                assert(subs.take(i as int) == subs_before.take(i as int));
                lemma_prefix_step(subs, i as int);
                assert forall|j: int| 0 <= j < i + 1 implies (#[trigger] subs[j]).resolves(manager@) by {
                    if j < i {
                        lemma_resolves_extend(subs_before[j], m_before, old_subs[i as int].visible());
                    }
                }
                assert forall|a: int, b: int| 0 <= a < b < subs.len() implies subs[a].segment.spec_name() != subs[b].segment.spec_name() by {
                    assert(subs_before[a].segment.spec_name() != subs_before[b].segment.spec_name());
                }
                assert forall|j: int| 0 <= j < subs.len() implies (#[trigger] subs[j]).wf() by {
                    if j != i {
                        assert(subs[j] == subs_before[j]);
                    }
                }
                assert forall|h: NameHandle| #[trigger] count_in(self.kills@, h) == kill_sum(subs.take(i + 1), h) by {
                    assert(subs.take(i + 1)[i as int] == child);
                }
                assert(manager@ == m0 + Self::visible_all(subs.take(i + 1)));
            }
            i = i + 1;
        }
        let end = manager.len();
        self.values = Values::Branch(start..end);
        proof {
            let subs = self.sub_groups@;
            assert(subs.take(subs.len() as int) == subs);
            lemma_same_totals(subs, old_subs);
            assert(manager@.subrange(start as int, end as int) == Self::visible_all(subs));
        }
    }
}

/// What recording a damage type does to a leaf's damage types: the unknown type
/// changes nothing; a type other than the shield type is then among them, with all
/// the types from before but the shield type, and nothing else; the shield type is
/// kept out where other types are there, and is the only type of a leaf without any.
pub proof fn law_damage_types(types: Set<NameHandle>, damage_type: NameHandle, shield: Option<NameHandle>)
    ensures
        damage_type.0 == UNKNOWN_HANDLE ==> types_after(types, damage_type, shield) == types,
        damage_type.0 != UNKNOWN_HANDLE && shield != Some(damage_type) ==> {
            &&& types_after(types, damage_type, shield).contains(damage_type)
            &&& forall|x: NameHandle|
                types.contains(x) && shield != Some(x) ==> #[trigger] types_after(types, damage_type, shield).contains(x)
            &&& forall|x: NameHandle|
                #[trigger] types_after(types, damage_type, shield).contains(x) ==> types.contains(x) || x == damage_type
            &&& (shield is Some && types.contains(shield->0) && !types.contains(damage_type)) ==> !types_after(
                types,
                damage_type,
                shield,
            ).contains(shield->0)
        },
        damage_type.0 != UNKNOWN_HANDLE && shield == Some(damage_type) && !types.is_empty() ==> types_after(
            types,
            damage_type,
            shield,
        ) == types,
        damage_type.0 != UNKNOWN_HANDLE && shield == Some(damage_type) && types.is_empty() ==> types_after(
            types,
            damage_type,
            shield,
        ) == Set::<NameHandle>::empty().insert(damage_type),
{
    if damage_type.0 != UNKNOWN_HANDLE && shield == Some(damage_type) && types.is_empty() {
        assert(types =~= Set::<NameHandle>::empty());
    }
}

/// Counting a kill adds one to the count of the leaf's name, wrapping at `u32::MAX`,
/// and leaves the counts of all other names; without a kill the counts stay.
pub proof fn law_kill_counts(before: Seq<(NameHandle, u32)>, after: Seq<(NameHandle, u32)>, name: NameHandle, kill: bool, other: NameHandle)
    requires
        kill_added(before, after, name, kill),
    ensures
        kill ==> count_in(after, name) == (count_in(before, name) + 1) % 0x1_0000_0000,
        !kill ==> count_in(after, name) == count_in(before, name),
        other != name ==> count_in(after, other) == count_in(before, other),
{
    if kill {
        assert(count_in(after, name) == inc(count_in(before, name)));
        assert(count_in(after, other) == if other == name { inc(count_in(before, other)) } else { count_in(before, other) });
    }
}

} // verus!

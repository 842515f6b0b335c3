use rustc_hash::{FxBuildHasher, FxHashMap};
use vstd::prelude::*;

use crate::flags::NameFlags;
use crate::settings::{names_view, spec_check_match, spec_group_matches_names, MatchAspect, RulesGroup};

verus! {

/// Interns the names that occur in a combat: every distinct nonempty name gets a
/// handle, and remembers the roles that the name was seen in.
#[derive(Debug, Clone)]
pub struct NameManager {
    name_infos: Vec<NameInfo>,
    name_to_handle: NameIndex,
}

/// The hasher builder of `rustc_hash`'s `FxHashMap`.
#[verifier::external_type_specification]
#[verifier::external_body]
pub struct ExFxBuildHasher(FxBuildHasher);

/// A map from names to their handles.
pub type NameIndex = FxHashMap<String, NameHandle>;

/// The names, as text, and the handles that a name index holds.
pub uninterp spec fn name_index(index: NameIndex) -> Map<Seq<char>, NameHandle>;

/// An empty map: `Default::default` of `FxHashMap`. Claimed: it holds no name.
#[verifier::external_body]
fn new_name_index() -> (res: NameIndex)
    ensures
        name_index(res).dom() == Set::<Seq<char>>::empty(),
{
    NameIndex::default()
}

/// Looks a name up: `HashMap::get` with the name as `&str` (a `String` key borrows as
/// one, and hashes and compares as its text). Claimed: the handle that the map holds
/// for the name's text, or `None` where it holds none.
#[verifier::external_body]
fn index_get(index: &NameIndex, name: &str) -> (res: Option<NameHandle>)
    ensures
        match res {
            Some(h) => name_index(*index).contains_key(name@) && name_index(*index)[name@] == h,
            None => !name_index(*index).contains_key(name@),
        },
{
    index.get(name).copied()
}

/// Maps a name to a handle: `HashMap::insert` with the name as a `String`. Claimed: the
/// map then holds the handle for the name's text, and all else as before.
#[verifier::external_body]
fn index_insert(index: &mut NameIndex, name: &str, handle: NameHandle)
    ensures
        name_index(*final(index)) == name_index(*old(index)).insert(name@, handle),
{
    index.insert(name.to_string(), handle);
}

/// A name and the roles it was seen in.
#[derive(Debug, Clone)]
pub struct NameInfo {
    pub name: String,
    pub flags: NameFlags,
}

/// The handle of an interned name; `NameHandle::unknown()` stands for the empty name.
#[derive(Debug, Clone, Copy, PartialEq, Eq, Structural, PartialOrd, Ord, Hash)]
pub struct NameHandle(pub u32);

/// The value behind `NameHandle::unknown()`.
pub const UNKNOWN_HANDLE: u32 = 4294967295;

impl NameHandle {
    /// The handle of the empty name.
    pub fn unknown() -> (res: Self)
        ensures
            res.0 == UNKNOWN_HANDLE,
    {
        NameHandle(UNKNOWN_HANDLE)
    }

    /// The name that the handle stands for.
    pub fn get<'a>(&self, name_manager: &'a NameManager) -> (res: &'a str)
        requires
            name_manager.wf(),
            self.0 == UNKNOWN_HANDLE || self.0 < name_manager.names().len(),
        ensures
            self.0 == UNKNOWN_HANDLE ==> res@ == "<unknown>"@,
            self.0 != UNKNOWN_HANDLE ==> res@ == name_manager.names()[self.0 as int],
    {
        name_manager.name(*self)
    }
}

impl Default for NameHandle {
    fn default() -> (res: Self)
        ensures
            res.0 == UNKNOWN_HANDLE,
    {
        Self::unknown()
    }
}

impl Default for NameManager {
    fn default() -> (res: Self)
        ensures
            res.wf(),
            res.names() == Seq::<Seq<char>>::empty(),
            res.flags() == Seq::<u8>::empty(),
    {
        let res = NameManager { name_infos: Vec::new(), name_to_handle: new_name_index() };
        assert(res.names() =~= Seq::<Seq<char>>::empty());
        res
    }
}

/// A name in a prefix of a sequence of names is in the sequence.
pub proof fn lemma_prefix_contains(a: Seq<Seq<char>>, b: Seq<Seq<char>>, x: Seq<char>)
    requires
        a.is_prefix_of(b),
        a.contains(x),
    ensures
        b.contains(x),
{
    let i = choose|i: int| 0 <= i < a.len() && a[i] == x;
    assert(b[i] == x);
}

/// Interning round trip: a name that was interned under a handle is the only name of
/// that handle and has no other handle, so `name` gives it back and `handle` and
/// `get_handle` give that handle; it is never the unknown handle.
pub proof fn lemma_name_handle_round_trip(nm: NameManager, x: Seq<char>, h: NameHandle)
    requires
        nm.wf(),
        h.0 < nm.names().len(),
        nm.names()[h.0 as int] == x,
    ensures
        h.0 != UNKNOWN_HANDLE,
        x.len() > 0,
        forall|g: NameHandle| g.0 < nm.names().len() && nm.names()[g.0 as int] == x ==> g == h,
{
    assert forall|g: NameHandle| g.0 < nm.names().len() && nm.names()[g.0 as int] == x implies g == h by {
        if g.0 < h.0 {
            assert(nm.names()[g.0 as int] != nm.names()[h.0 as int]);
        } else if h.0 < g.0 {
            assert(nm.names()[h.0 as int] != nm.names()[g.0 as int]);
        }
    }
}

/// Setting more bits keeps every bit that was set.
proof fn lemma_or_keeps_bits(a: u8, b: u8, f: u8)
    requires
        a & f != 0,
    ensures
        (a | b) & f != 0,
        (b | a) & f != 0,
{
    assert((a & f != 0) ==> (a | b) & f != 0 && (b | a) & f != 0) by (bit_vector);
}

/// `b` keeps every name of `a` at its handle, with every role that it had.
pub open spec fn keeps_roles(a: NameManager, b: NameManager) -> bool {
    &&& a.names().is_prefix_of(b.names())
    &&& forall|i: int, f: u8| #[trigger] a.has_role(i, f) ==> b.has_role(i, f)
}

/// Keeping roles is transitive, and a name seen in a role stays so.
pub proof fn lemma_keeps_roles(a: NameManager, b: NameManager, c: NameManager)
    requires
        keeps_roles(a, b),
        keeps_roles(b, c),
    ensures
        keeps_roles(a, c),
        forall|x: Seq<char>, f: u8| #[trigger] a.named_with_role(x, f) ==> c.named_with_role(x, f),
        forall|x: Seq<char>, f: u8| #[trigger] b.named_with_role(x, f) ==> c.named_with_role(x, f),
{
    assert forall|i: int, f: u8| #[trigger] a.has_role(i, f) implies c.has_role(i, f) by {
        assert(b.has_role(i, f));
    }
    assert forall|x: Seq<char>, f: u8| #[trigger] b.named_with_role(x, f) implies c.named_with_role(x, f) by {
        let i = choose|i: int| #[trigger] b.has_role(i, f) && b.names()[i] == x;
        assert(c.has_role(i, f));
    }
    assert forall|x: Seq<char>, f: u8| #[trigger] a.named_with_role(x, f) implies c.named_with_role(x, f) by {
        let i = choose|i: int| #[trigger] a.has_role(i, f) && a.names()[i] == x;
        assert(b.has_role(i, f));
        assert(c.has_role(i, f));
    }
}

impl NameManager {
    /// The interned names; the handle of a name is its index.
    pub closed spec fn names(&self) -> Seq<Seq<char>> {
        self.name_infos@.map_values(|i: NameInfo| i.name@)
    }

    /// The role flags of each interned name, by handle.
    pub closed spec fn flags(&self) -> Seq<u8> {
        self.name_infos@.map_values(|i: NameInfo| i.flags.bits)
    }

    /// Names are distinct and nonempty, and every handle is below the unknown handle.
    pub open spec fn wf(&self) -> bool {
        &&& self.names().len() == self.flags().len()
        &&& self.names().len() <= UNKNOWN_HANDLE
        &&& forall|i: int, j: int|
            0 <= i < j < self.names().len() ==> self.names()[i] != self.names()[j]
        &&& forall|i: int| 0 <= i < self.names().len() ==> self.names()[i].len() > 0
        &&& self.index_wf()
    }

    /// The map from names to handles holds each interned name with its handle, and
    /// nothing else.
    pub closed spec fn index_wf(&self) -> bool {
        let index = name_index(self.name_to_handle);
        &&& forall|x: Seq<char>| #[trigger] index.contains_key(x) ==> index[x].0 < self.names().len()
            && self.names()[index[x].0 as int] == x
        &&& forall|i: int| 0 <= i < self.names().len() ==> #[trigger] index.contains_key(self.names()[i])
    }

    /// The number of interned names.
    pub fn len(&self) -> (res: usize)
        ensures
            res == self.names().len(),
    {
        self.name_infos.len()
    }

    /// The handle of `name` where it is interned.
    fn find(&self, name: &str) -> (res: Option<usize>)
        requires
            self.wf(),
        ensures
            match res {
                Some(i) => i < self.names().len() && self.names()[i as int] == name@,
                None => !self.names().contains(name@),
            },
    {
        match index_get(&self.name_to_handle, name) {
            Some(h) => Some(h.0 as usize),
            None => {
                assert(!self.names().contains(name@)) by {
                    if self.names().contains(name@) {
                        let i = choose|i: int| 0 <= i < self.names().len() && self.names()[i] == name@;
                        assert(name_index(self.name_to_handle).contains_key(self.names()[i]));
                    }
                }
                None
            },
        }
    }

    /// Interns `name` with the roles `flags` and returns its handle; the empty name
    /// gets the unknown handle and changes nothing.
    pub fn insert(&mut self, name: &str, flags: NameFlags) -> (res: NameHandle)
        requires
            old(self).wf(),
            name@.len() == 0 || old(self).names().contains(name@) || old(self).names().len() < UNKNOWN_HANDLE,
        ensures
            final(self).wf(),
            old(self).names().is_prefix_of(final(self).names()),
            name@.len() > 0 ==> final(self).names().contains(name@),
            name@.len() == 0 ==> res.0 == UNKNOWN_HANDLE && *final(self) == *old(self),
            name@.len() > 0 && old(self).names().contains(name@) ==> {
                &&& res.0 < old(self).names().len()
                &&& old(self).names()[res.0 as int] == name@
                &&& final(self).names() == old(self).names()
                &&& final(self).flags() == old(self).flags().update(
                    res.0 as int,
                    old(self).flags()[res.0 as int] | flags.bits,
                )
            },
            name@.len() > 0 && !old(self).names().contains(name@) ==> {
                &&& res.0 == old(self).names().len()
                &&& final(self).names() == old(self).names().push(name@)
                &&& final(self).flags() == old(self).flags().push(flags.bits)
            },
            keeps_roles(*old(self), *final(self)),
            name@.len() > 0 ==> forall|f: u8| flags.bits & f != 0 ==> #[trigger] final(self).named_with_role(name@, f),
    {
        if name.is_empty() {
            return NameHandle::unknown();
        }
        match self.find(name) {
            Some(i) => {
                let ghost old_infos = self.name_infos@;
                let old_flags = self.name_infos[i].flags;
                let info = NameInfo {
                    name: self.name_infos[i].name.clone(),
                    flags: old_flags.union(flags),
                };
                self.name_infos.set(i, info);
                assert(self.names() =~= old(self).names());
                assert(self.flags() =~= old(self).flags().update(
                    i as int,
                    old(self).flags()[i as int] | flags.bits,
                ));
                assert(self.names()[i as int] == name@);
                proof {
                    assert forall|j: int, f: u8| #[trigger] old(self).has_role(j, f) implies self.has_role(j, f) by {
                        if j == i {
                            lemma_or_keeps_bits(old_flags.bits, flags.bits, f);
                        }
                    }
                    assert forall|f: u8| flags.bits & f != 0 implies #[trigger] self.named_with_role(name@, f) by {
                        lemma_or_keeps_bits(flags.bits, old_flags.bits, f);
                        assert(self.has_role(i as int, f));
                    }
                }
                NameHandle(i as u32)
            },
            None => {
                let handle = self.name_infos.len();
                self.name_infos.push(NameInfo { name: String::from_str(name), flags });
                index_insert(&mut self.name_to_handle, name, NameHandle(handle as u32));
                assert(self.names() =~= old(self).names().push(name@));
                proof {
                    let index = name_index(self.name_to_handle);
                    let old_index = name_index(old(self).name_to_handle);
                    assert forall|x: Seq<char>| #[trigger] index.contains_key(x) implies index[x].0 < self.names().len()
                        && self.names()[index[x].0 as int] == x by {
                        if x != name@ {
                            assert(old_index.contains_key(x));
                        }
                    }
                    assert forall|i: int| 0 <= i < self.names().len() implies #[trigger] index.contains_key(self.names()[i]) by {
                        if i < handle {
                            assert(old_index.contains_key(old(self).names()[i]));
                        }
                    }
                }
                assert(self.flags() =~= old(self).flags().push(flags.bits));
                assert forall|i: int, j: int|
                    0 <= i < j < self.names().len() implies self.names()[i] != self.names()[j] by {
                    if j == handle {
                        assert(old(self).names()[i] != name@);
                    }
                }
                assert(self.names()[handle as int] == name@);
                proof {
                    assert forall|j: int, f: u8| #[trigger] old(self).has_role(j, f) implies self.has_role(j, f) by {
                        assert(self.flags()[j] == old(self).flags()[j]);
                    }
                    assert forall|f: u8| flags.bits & f != 0 implies #[trigger] self.named_with_role(name@, f) by {
                        assert(self.has_role(handle as int, f));
                    }
                }
                NameHandle(handle as u32)
            },
        }
    }

    /// Interns `name` where there is one.
    pub fn insert_some(&mut self, name: Option<&str>, flags: NameFlags) -> (res: Option<NameHandle>)
        requires
            old(self).wf(),
            name matches Some(n) ==> (n@.len() == 0 || old(self).names().contains(n@) || old(self).names().len()
                < UNKNOWN_HANDLE),
        ensures
            final(self).wf(),
            name is None ==> res is None && *final(self) == *old(self),
            name matches Some(n) ==> (res matches Some(h) && {
                &&& n@.len() == 0 ==> h.0 == UNKNOWN_HANDLE && *final(self) == *old(self)
                &&& n@.len() > 0 ==> h.0 < final(self).names().len() && final(self).names()[h.0 as int] == n@
                &&& n@.len() > 0 && old(self).names().contains(n@) ==> final(self).names() == old(self).names()
                &&& n@.len() > 0 && !old(self).names().contains(n@) ==> final(self).names() == old(self).names().push(n@)
            }),
            final(self).names().len() <= old(self).names().len() + 1,
            forall|i: int| 0 <= i < old(self).names().len() ==> final(self).names()[i] == old(self).names()[i],
            old(self).names().is_prefix_of(final(self).names()),
            name matches Some(n) ==> (n@.len() > 0 ==> final(self).names().contains(n@)),
            keeps_roles(*old(self), *final(self)),
            name matches Some(n) ==> (n@.len() > 0 ==> forall|f: u8| flags.bits & f != 0 ==> #[trigger] final(self).named_with_role(n@, f)),
    {
        match name {
            None => None,
            Some(n) => Some(self.insert(n, flags)),
        }
    }

    /// The name of a handle.
    pub fn name(&self, handle: NameHandle) -> (res: &str)
        requires
            self.wf(),
            handle.0 == UNKNOWN_HANDLE || handle.0 < self.names().len(),
        ensures
            handle.0 == UNKNOWN_HANDLE ==> res@ == "<unknown>"@,
            handle.0 != UNKNOWN_HANDLE ==> res@ == self.names()[handle.0 as int],
    {
        if handle.0 == UNKNOWN_HANDLE {
            return "<unknown>";
        }
        self.name_infos[handle.0 as usize].name.as_str()
    }

    /// The name of a handle, where the handle is known.
    pub fn get_name(&self, handle: NameHandle) -> (res: Option<&str>)
        requires
            self.wf(),
        ensures
            handle.0 == UNKNOWN_HANDLE ==> (res matches Some(n) && n@ == "<unknown>"@),
            handle.0 != UNKNOWN_HANDLE && handle.0 < self.names().len() ==> (res matches Some(n)
                && n@ == self.names()[handle.0 as int]),
            handle.0 != UNKNOWN_HANDLE && handle.0 >= self.names().len() ==> res is None,
    {
        if handle.0 == UNKNOWN_HANDLE {
            return Some("<unknown>");
        }
        if (handle.0 as usize) < self.name_infos.len() {
            Some(self.name_infos[handle.0 as usize].name.as_str())
        } else {
            None
        }
    }

    /// The handle of an interned name; the empty name has the unknown handle.
    pub fn handle(&self, name: &str) -> (res: NameHandle)
        requires
            self.wf(),
            name@.len() == 0 || self.names().contains(name@),
        ensures
            name@.len() == 0 ==> res.0 == UNKNOWN_HANDLE,
            name@.len() > 0 ==> res.0 < self.names().len() && self.names()[res.0 as int] == name@,
    {
        if name.is_empty() {
            return NameHandle::unknown();
        }
        match self.find(name) {
            Some(i) => NameHandle(i as u32),
            None => NameHandle::unknown(),
        }
    }

    /// The handle of `name`, where it is interned; the empty name has the unknown handle.
    pub fn get_handle(&self, name: &str) -> (res: Option<NameHandle>)
        requires
            self.wf(),
        ensures
            name@.len() == 0 ==> (res matches Some(h) && h.0 == UNKNOWN_HANDLE),
            name@.len() > 0 && self.names().contains(name@) ==> (res matches Some(h) && h.0
                < self.names().len() && self.names()[h.0 as int] == name@),
            name@.len() > 0 && !self.names().contains(name@) ==> res is None,
    {
        if name.is_empty() {
            return Some(NameHandle::unknown());
        }
        match self.find(name) {
            Some(i) => Some(NameHandle(i as u32)),
            None => None,
        }
    }

    /// Whether the name of `handle` was seen as a player; the unknown handle, and a
    /// handle of no name, was not.
    pub fn is_player(&self, handle: NameHandle) -> (res: bool)
        requires
            self.wf(),
        ensures
            res == self.has_role(handle.0 as int, NameFlags::PLAYER),
    {
        let i = handle.0 as usize;
        if i < self.name_infos.len() {
            self.name_infos[i].flags.intersects(NameFlags::from_bits(NameFlags::PLAYER))
        } else {
            false
        }
    }

    /// Whether the name of handle `i` was seen in a role of `flags`.
    pub open spec fn has_role(&self, i: int, flags: u8) -> bool {
        0 <= i < self.names().len() && self.flags()[i] & flags != 0
    }

    /// Whether `x` is the name of a handle seen in a role of `flags`.
    pub open spec fn named_with_role(&self, x: Seq<char>, flags: u8) -> bool {
        exists|i: int| #[trigger] self.has_role(i, flags) && self.names()[i] == x
    }

    /// `names` are exactly the interned names seen in a role of `flags`.
    pub open spec fn lists(&self, names: Seq<Seq<char>>, flags: u8) -> bool {
        &&& forall|k: int| 0 <= k < names.len() ==> #[trigger] self.named_with_role(names[k], flags)
        &&& forall|i: int| #[trigger] self.has_role(i, flags) ==> names.contains(self.names()[i])
    }

    /// Whether `rule` is enabled and one of its rules looks at `aspect` and matches a
    /// name seen in a role of `flags`.
    pub open spec fn spec_matches_role(&self, rule: RulesGroup, aspect: MatchAspect, flags: u8) -> bool {
        rule.enabled && exists|i: int, j: int|
            #[trigger] self.has_role(i, flags) && 0 <= j < rule.rules@.len()
                && crate::settings::spec_rule_matches_name(#[trigger] rule.rules@[j], aspect, self.names()[i])
    }

    /// Whether `rule` matches the names of the combat, by the aspect of each rule.
    pub open spec fn spec_matches(&self, rule: RulesGroup) -> bool {
        ||| self.spec_matches_role(rule, MatchAspect::SourceOrTargetName, NameFlags::SOURCE | NameFlags::TARGET)
        ||| self.spec_matches_role(rule, MatchAspect::SourceOrTargetUniqueName, NameFlags::SOURCE_UNIQUE | NameFlags::TARGET_UNIQUE)
        ||| self.spec_matches_role(rule, MatchAspect::IndirectSourceName, NameFlags::INDIRECT_SOURCE)
        ||| self.spec_matches_role(rule, MatchAspect::IndirectUniqueSourceName, NameFlags::INDIRECT_SOURCE_UNIQUE)
        ||| self.spec_matches_role(rule, MatchAspect::DamageOrHealName, NameFlags::VALUE)
    }

    /// Matching a list of the names of a role is matching the names in that role.
    proof fn lemma_lists_matches(&self, names: Seq<Seq<char>>, rule: RulesGroup, aspect: MatchAspect, flags: u8)
        requires
            self.lists(names, flags),
        ensures
            spec_group_matches_names(rule, aspect, names) == self.spec_matches_role(rule, aspect, flags),
    {
        if spec_group_matches_names(rule, aspect, names) {
            let (a, b) = choose|a: int, b: int|
                0 <= a < names.len() && 0 <= b < rule.rules@.len() && crate::settings::spec_rule_matches_name(
                    #[trigger] rule.rules@[b],
                    aspect,
                    #[trigger] names[a],
                );
            assert(self.named_with_role(names[a], flags));
            let i = choose|i: int| #[trigger] self.has_role(i, flags) && self.names()[i] == names[a];
            assert(self.has_role(i, flags) && 0 <= b < rule.rules@.len()
                && crate::settings::spec_rule_matches_name(rule.rules@[b], aspect, self.names()[i]));
        }
        if self.spec_matches_role(rule, aspect, flags) {
            let (i, b) = choose|i: int, b: int|
                #[trigger] self.has_role(i, flags) && 0 <= b < rule.rules@.len()
                    && crate::settings::spec_rule_matches_name(#[trigger] rule.rules@[b], aspect, self.names()[i]);
            assert(names.contains(self.names()[i]));
            let k = choose|k: int| 0 <= k < names.len() && names[k] == self.names()[i];
            assert(crate::settings::spec_rule_matches_name(rule.rules@[b], aspect, names[k]));
        }
    }

    /// The names seen in a role of `flags`, in handle order.
    pub fn names_by_flags(&self, flags: NameFlags) -> (res: Vec<&str>)
        requires
            self.wf(),
        ensures
            self.lists(names_view(res@), flags.bits),
            forall|a: int, b: int| 0 <= a < b < res@.len() ==> res@[a]@ != res@[b]@,
    {
        let mut res: Vec<&str> = Vec::new();
        let ghost mut idx: Seq<int> = Seq::empty();
        let mut i: usize = 0;
        while i < self.name_infos.len()
            invariant
                i <= self.names().len(),
                self.names().len() == self.name_infos@.len(),
                self.flags().len() == self.name_infos@.len(),
                idx.len() == res@.len(),
                forall|k: int| 0 <= k < idx.len() ==> {
                    &&& 0 <= #[trigger] idx[k] < i
                    &&& self.has_role(idx[k], flags.bits)
                    &&& res@[k]@ == self.names()[idx[k]]
                },
                forall|j: int| 0 <= j < i && #[trigger] self.has_role(j, flags.bits) ==> exists|k: int|
                    0 <= k < idx.len() && #[trigger] idx[k] == j,
                forall|a: int, b: int| 0 <= a < b < idx.len() ==> idx[a] < idx[b],
                self.wf(),
            decreases self.names().len() - i,
        {
            let info = &self.name_infos[i];
            assert(self.flags()[i as int] == info.flags.bits);
            assert(self.names()[i as int] == info.name@);
            let ghost before = idx;
            if info.flags.intersects(flags) {
                res.push(info.name.as_str());
                proof {
                    idx = idx.push(i as int);
                    assert(idx[before.len() as int] == i);
                }
            }
            assert forall|j: int| 0 <= j < i + 1 && #[trigger] self.has_role(j, flags.bits) implies exists|k: int|
                0 <= k < idx.len() && #[trigger] idx[k] == j by {
                if j == i {
                    assert(idx[before.len() as int] == j);
                } else {
                    let k = choose|k: int| 0 <= k < before.len() && #[trigger] before[k] == j;
                    assert(idx[k] == j);
                }
            }
            i = i + 1;
        }
        proof {
            let nv = names_view(res@);
            assert forall|k: int| 0 <= k < nv.len() implies #[trigger] self.named_with_role(nv[k], flags.bits) by {
                assert(nv[k] == res@[k]@);
                assert(self.has_role(idx[k], flags.bits));
            }
            assert forall|j: int| #[trigger] self.has_role(j, flags.bits) implies nv.contains(self.names()[j]) by {
                let k = choose|k: int| 0 <= k < idx.len() && #[trigger] idx[k] == j;
                assert(nv[k] == res@[k]@);
                assert(nv[k] == self.names()[j]);
            }
            assert forall|a: int, b: int| 0 <= a < b < res@.len() implies res@[a]@ != res@[b]@ by {
                assert(idx[a] < idx[b]);
                assert(self.names()[idx[a]] != self.names()[idx[b]]);
            }
        }
        res
    }

    /// The names seen as a source or a target.
    pub fn source_targets(&self) -> (res: Vec<&str>)
        requires
            self.wf(),
        ensures
            self.lists(names_view(res@), NameFlags::SOURCE | NameFlags::TARGET),
    {
        self.names_by_flags(NameFlags::from_bits(NameFlags::SOURCE | NameFlags::TARGET))
    }

    /// The unique names seen of a source or a target.
    pub fn source_targets_unique(&self) -> (res: Vec<&str>)
        requires
            self.wf(),
        ensures
            self.lists(names_view(res@), NameFlags::SOURCE_UNIQUE | NameFlags::TARGET_UNIQUE),
    {
        self.names_by_flags(NameFlags::from_bits(NameFlags::SOURCE_UNIQUE | NameFlags::TARGET_UNIQUE))
    }

    /// The names seen as an indirect source.
    pub fn indirect_sources(&self) -> (res: Vec<&str>)
        requires
            self.wf(),
        ensures
            self.lists(names_view(res@), NameFlags::INDIRECT_SOURCE),
    {
        self.names_by_flags(NameFlags::from_bits(NameFlags::INDIRECT_SOURCE))
    }

    /// The unique names seen of an indirect source.
    pub fn indirect_sources_unique(&self) -> (res: Vec<&str>)
        requires
            self.wf(),
        ensures
            self.lists(names_view(res@), NameFlags::INDIRECT_SOURCE_UNIQUE),
    {
        self.names_by_flags(NameFlags::from_bits(NameFlags::INDIRECT_SOURCE_UNIQUE))
    }

    /// The names of damage and heal values.
    pub fn values(&self) -> (res: Vec<&str>)
        requires
            self.wf(),
        ensures
            self.lists(names_view(res@), NameFlags::VALUE),
    {
        self.names_by_flags(NameFlags::from_bits(NameFlags::VALUE))
    }

    /// Whether a rules group matches the names of the combat: source or target names,
    /// their unique names, indirect source names, their unique names, and the names of
    /// damage and heal values, each compared by the rules that look at it.
    pub fn matches(&self, rule: &RulesGroup) -> (res: bool)
        requires
            self.wf(),
        ensures
            res == self.spec_matches(*rule),
    {
        let a = self.source_targets();
        let b = self.source_targets_unique();
        let c = self.indirect_sources();
        let d = self.indirect_sources_unique();
        let e = self.values();
        proof {
            self.lemma_lists_matches(names_view(a@), *rule, MatchAspect::SourceOrTargetName, NameFlags::SOURCE | NameFlags::TARGET);
            self.lemma_lists_matches(names_view(b@), *rule, MatchAspect::SourceOrTargetUniqueName, NameFlags::SOURCE_UNIQUE | NameFlags::TARGET_UNIQUE);
            self.lemma_lists_matches(names_view(c@), *rule, MatchAspect::IndirectSourceName, NameFlags::INDIRECT_SOURCE);
            self.lemma_lists_matches(names_view(d@), *rule, MatchAspect::IndirectUniqueSourceName, NameFlags::INDIRECT_SOURCE_UNIQUE);
            self.lemma_lists_matches(names_view(e@), *rule, MatchAspect::DamageOrHealName, NameFlags::VALUE);
        }
        rule.matches_source_or_target_names(&a) || rule.matches_source_or_target_unique_names(&b)
            || rule.matches_indirect_source_names(&c) || rule.matches_indirect_source_unique_names(
            &d,
        ) || rule.matches_damage_or_heal_names(&e)
    }
}

/// A name seen in one of two roles is seen in one of them: the role bit is among the
/// bits of both.
proof fn lemma_role_in_union(nm: NameManager, x: Seq<char>, f: u8, g: u8)
    requires
        nm.named_with_role(x, f) || nm.named_with_role(x, g),
    ensures
        nm.named_with_role(x, f | g),
{
    if nm.named_with_role(x, f) {
        let i = choose|i: int| #[trigger] nm.has_role(i, f) && nm.names()[i] == x;
        let b = nm.flags()[i];
        assert(b & f != 0 ==> b & (f | g) != 0) by (bit_vector);
        assert(nm.has_role(i, f | g));
    } else {
        let i = choose|i: int| #[trigger] nm.has_role(i, g) && nm.names()[i] == x;
        let b = nm.flags()[i];
        assert(b & g != 0 ==> b & (f | g) != 0) by (bit_vector);
        assert(nm.has_role(i, f | g));
    }
}

/// A rules group matches the names of a combat where it is enabled and one of its
/// enabled rules matches, by its method, a name seen in the role that the rule's aspect
/// looks at: a source or a target name, a source or a target unique name, an indirect
/// source name, an indirect source unique name, or the name of a damage or heal.
pub proof fn law_matches_by_role(nm: NameManager, rule: RulesGroup, j: int, x: Seq<char>)
    requires
        rule.enabled,
        0 <= j < rule.rules@.len(),
        rule.rules@[j].enabled,
        spec_check_match(rule.rules@[j].method, rule.rules@[j].expression@, x),
    ensures
        rule.rules@[j].aspect == MatchAspect::SourceOrTargetName && (nm.named_with_role(x, NameFlags::SOURCE)
            || nm.named_with_role(x, NameFlags::TARGET)) ==> nm.spec_matches(rule),
        rule.rules@[j].aspect == MatchAspect::SourceOrTargetUniqueName && (nm.named_with_role(
            x,
            NameFlags::SOURCE_UNIQUE,
        ) || nm.named_with_role(x, NameFlags::TARGET_UNIQUE)) ==> nm.spec_matches(rule),
        rule.rules@[j].aspect == MatchAspect::IndirectSourceName && nm.named_with_role(x, NameFlags::INDIRECT_SOURCE)
            ==> nm.spec_matches(rule),
        rule.rules@[j].aspect == MatchAspect::IndirectUniqueSourceName && nm.named_with_role(
            x,
            NameFlags::INDIRECT_SOURCE_UNIQUE,
        ) ==> nm.spec_matches(rule),
        rule.rules@[j].aspect == MatchAspect::DamageOrHealName && nm.named_with_role(x, NameFlags::VALUE)
            ==> nm.spec_matches(rule),
{
    let a = rule.rules@[j].aspect;
    let f = if a == MatchAspect::SourceOrTargetName {
        NameFlags::SOURCE | NameFlags::TARGET
    } else if a == MatchAspect::SourceOrTargetUniqueName {
        NameFlags::SOURCE_UNIQUE | NameFlags::TARGET_UNIQUE
    } else if a == MatchAspect::IndirectSourceName {
        NameFlags::INDIRECT_SOURCE
    } else if a == MatchAspect::IndirectUniqueSourceName {
        NameFlags::INDIRECT_SOURCE_UNIQUE
    } else {
        NameFlags::VALUE
    };
    if a == MatchAspect::SourceOrTargetName && (nm.named_with_role(x, NameFlags::SOURCE) || nm.named_with_role(
        x,
        NameFlags::TARGET,
    )) {
        lemma_role_in_union(nm, x, NameFlags::SOURCE, NameFlags::TARGET);
    }
    if a == MatchAspect::SourceOrTargetUniqueName && (nm.named_with_role(x, NameFlags::SOURCE_UNIQUE)
        || nm.named_with_role(x, NameFlags::TARGET_UNIQUE)) {
        lemma_role_in_union(nm, x, NameFlags::SOURCE_UNIQUE, NameFlags::TARGET_UNIQUE);
    }
    if nm.named_with_role(x, f) {
        let i = choose|i: int| #[trigger] nm.has_role(i, f) && nm.names()[i] == x;
        assert(crate::settings::spec_rule_matches_name(rule.rules@[j], a, nm.names()[i]));
        assert(nm.spec_matches_role(rule, a, f));
    }
}

/// A disabled rules group matches no names.
pub proof fn law_disabled_group_matches_nothing(nm: NameManager, rule: RulesGroup)
    requires
        !rule.enabled,
    ensures
        !nm.spec_matches(rule),
{
}

} // verus!

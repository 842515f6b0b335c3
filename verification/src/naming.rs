use vstd::prelude::*;

use crate::name_manager::NameManager;
use crate::settings::{CombatNameRule, RulesGroup};

verus! {

/// A combat's name from a naming rule, with the names of the further information that
/// matched.
#[derive(Debug, Clone)]
pub struct CombatName {
    pub name: String,
    pub additional_infos: Vec<String>,
}

/// A combat name as text.
pub struct SpecCombatName {
    pub name: Seq<char>,
    pub additional_infos: Seq<Seq<char>>,
}

/// The texts of a sequence of strings.
pub open spec fn strings_view(s: Seq<String>) -> Seq<Seq<char>> {
    s.map_values(|x: String| x@)
}

impl View for CombatName {
    type V = SpecCombatName;

    open spec fn view(&self) -> SpecCombatName {
        SpecCombatName { name: self.name@, additional_infos: strings_view(self.additional_infos@) }
    }
}

/// The combat names as text.
pub open spec fn combat_names_view(s: Seq<CombatName>) -> Seq<SpecCombatName> {
    s.map_values(|c: CombatName| c@)
}

/// The names of the rule groups that match the names of a combat, in order.
pub open spec fn matching_names(rules: Seq<RulesGroup>, nm: NameManager) -> Seq<Seq<char>>
    decreases rules.len(),
{
    if rules.len() == 0 {
        Seq::empty()
    } else {
        let prev = matching_names(rules.drop_last(), nm);
        if nm.spec_matches(rules.last()) {
            prev.push(rules.last().name@)
        } else {
            prev
        }
    }
}

/// The combat name that a naming rule gives.
pub open spec fn combat_name_of(rule: CombatNameRule, nm: NameManager) -> SpecCombatName {
    SpecCombatName {
        name: rule.name_rule.name@,
        additional_infos: matching_names(rule.additional_info_rules@, nm),
    }
}

/// The index of the first combat name called `n`, or -1.
pub open spec fn name_index(names: Seq<SpecCombatName>, n: Seq<char>) -> int
    decreases names.len(),
{
    if names.len() == 0 {
        -1
    } else {
        let k = name_index(names.drop_last(), n);
        if k >= 0 {
            k
        } else if names.last().name == n {
            names.len() - 1
        } else {
            -1
        }
    }
}

/// `names` with `c` in place of the combat name of the same name, or with `c` added.
pub open spec fn put_name(names: Seq<SpecCombatName>, c: SpecCombatName) -> Seq<SpecCombatName> {
    let k = name_index(names, c.name);
    if k >= 0 {
        names.update(k, c)
    } else {
        names.push(c)
    }
}

/// The names of a combat: one for each distinct name of the naming rules that match,
/// from the last such rule.
pub open spec fn spec_combat_names(rules: Seq<CombatNameRule>, nm: NameManager) -> Seq<SpecCombatName>
    decreases rules.len(),
{
    if rules.len() == 0 {
        Seq::empty()
    } else {
        let prev = spec_combat_names(rules.drop_last(), nm);
        if nm.spec_matches(rules.last().name_rule) {
            put_name(prev, combat_name_of(rules.last(), nm))
        } else {
            prev
        }
    }
}

/// The parts, with `sep` between each two of them.
pub open spec fn join(parts: Seq<Seq<char>>, sep: Seq<char>) -> Seq<char>
    decreases parts.len(),
{
    if parts.len() == 0 {
        Seq::empty()
    } else if parts.len() == 1 {
        parts[0]
    } else {
        join(parts.drop_last(), sep) + sep + parts.last()
    }
}

/// A combat name as shown: the name, and the further information in brackets.
pub open spec fn spec_format(c: SpecCombatName) -> Seq<char> {
    if c.additional_infos.len() == 0 {
        c.name
    } else {
        c.name + seq![' ', '('] + join(c.additional_infos, seq![',', ' ']) + seq![')']
    }
}

/// The title of a combat with these names: the names as shown, or "Combat".
pub open spec fn spec_title(names: Seq<SpecCombatName>) -> Seq<char> {
    if names.len() == 0 {
        seq!['C', 'o', 'm', 'b', 'a', 't']
    } else {
        join(names.map_values(|c: SpecCombatName| spec_format(c)), seq![',', ' '])
    }
}

/// The strings joined, with `sep` between each two of them.
pub fn join_strings(parts: &Vec<String>, sep: &str) -> (res: String)
    ensures
        res@ == join(strings_view(parts@), sep@),
{
    let mut res = String::new();
    let mut i: usize = 0;
    while i < parts.len()
        invariant
            i <= parts@.len(),
            res@ == join(strings_view(parts@).take(i as int), sep@),
        decreases parts@.len() - i,
    {
        proof {
            assert(strings_view(parts@).take(i + 1).drop_last() == strings_view(parts@).take(i as int));
        }
        if i > 0 {
            res.append(sep);
        }
        res.append(parts[i].as_str());
        proof {
            if i == 0 {
                assert(res@ == strings_view(parts@).take(1)[0]);
            }
        }
        i = i + 1;
    }
    assert(strings_view(parts@).take(parts@.len() as int) == strings_view(parts@));
    res
}

/// The names of the rule groups that match the names of a combat, in order.
fn matching_group_names(rules: &Vec<RulesGroup>, name_manager: &NameManager) -> (res: Vec<String>)
    requires
        name_manager.wf(),
    ensures
        strings_view(res@) == matching_names(rules@, *name_manager),
{
    let mut res: Vec<String> = Vec::new();
    let mut i: usize = 0;
    while i < rules.len()
        invariant
            i <= rules@.len(),
            name_manager.wf(),
            strings_view(res@) == matching_names(rules@.take(i as int), *name_manager),
        decreases rules@.len() - i,
    {
        proof {
            assert(rules@.take(i + 1).drop_last() == rules@.take(i as int));
        }
        if name_manager.matches(&rules[i]) {
            let ghost before = res@;
            res.push(rules[i].name.clone());
            proof {
                assert(strings_view(res@) == strings_view(before).push(rules@[i as int].name@));
            }
        }
        i = i + 1;
    }
    assert(rules@.take(rules@.len() as int) == rules@);
    res
}

impl CombatName {
    /// The combat name that `rule` gives: its name, with the names of the further
    /// information rules that match the combat's names.
    pub fn new(rule: &CombatNameRule, name_manager: &NameManager) -> (res: Self)
        requires
            name_manager.wf(),
        ensures
            res@ == combat_name_of(*rule, *name_manager),
    {
        CombatName {
            name: rule.name_rule.name.clone(),
            additional_infos: matching_group_names(&rule.additional_info_rules, name_manager),
        }
    }

    /// The name as shown: "name (info, info)", or the bare name without further
    /// information.
    pub fn format(&self) -> (res: String)
        ensures
            res@ == spec_format(self@),
    {
        if self.additional_infos.len() == 0 {
            return self.name.clone();
        }
        let mut res = self.name.clone();
        res.append(" (");
        let infos = join_strings(&self.additional_infos, ", ");
        res.append(infos.as_str());
        res.append(")");
        proof {
            reveal_strlit(" (");
            reveal_strlit(", ");
            reveal_strlit(")");
            assert(" ("@ =~= seq![' ', '(']);
            assert(", "@ =~= seq![',', ' ']);
            assert(")"@ =~= seq![')']);
        }
        res
    }
}

/// The index of the first combat name called `name`.
fn find_name(names: &Vec<CombatName>, name: &String) -> (res: Option<usize>)
    ensures
        match res {
            Some(k) => k < names@.len() && name_index(combat_names_view(names@), name@) == k,
            None => name_index(combat_names_view(names@), name@) == -1,
        },
{
    let mut i: usize = 0;
    while i < names.len()
        invariant
            i <= names@.len(),
            name_index(combat_names_view(names@).take(i as int), name@) == -1,
        decreases names@.len() - i,
    {
        proof {
            assert(combat_names_view(names@).take(i + 1).drop_last() == combat_names_view(names@).take(i as int));
        }
        if names[i].name == *name {
            proof {
                lemma_name_index_prefix(combat_names_view(names@), i + 1, name@);
            }
            return Some(i);
        }
        i = i + 1;
    }
    assert(combat_names_view(names@).take(names@.len() as int) == combat_names_view(names@));
    None
}

/// A name found in a prefix is found at the same index in the whole sequence.
proof fn lemma_name_index_prefix(names: Seq<SpecCombatName>, k: int, n: Seq<char>)
    requires
        0 < k <= names.len(),
        name_index(names.take(k), n) >= 0,
    ensures
        name_index(names, n) == name_index(names.take(k), n),
    decreases names.len() - k,
{
    if k < names.len() {
        assert(names.take(k + 1).drop_last() == names.take(k));
        lemma_name_index_prefix(names, k + 1, n);
    } else {
        assert(names.take(k) == names);
    }
}

/// The names of a combat from the naming rules that match its names; a later rule of
/// the same name takes the place of an earlier one.
pub fn combat_names(rules: &Vec<CombatNameRule>, name_manager: &NameManager) -> (res: Vec<CombatName>)
    requires
        name_manager.wf(),
    ensures
        combat_names_view(res@) == spec_combat_names(rules@, *name_manager),
{
    let mut res: Vec<CombatName> = Vec::new();
    let mut i: usize = 0;
    while i < rules.len()
        invariant
            i <= rules@.len(),
            name_manager.wf(),
            combat_names_view(res@) == spec_combat_names(rules@.take(i as int), *name_manager),
        decreases rules@.len() - i,
    {
        proof {
            assert(rules@.take(i + 1).drop_last() == rules@.take(i as int));
        }
        if name_manager.matches(&rules[i].name_rule) {
            let c = CombatName::new(&rules[i], name_manager);
            let ghost before = res@;
            match find_name(&res, &rules[i].name_rule.name) {
                Some(k) => {
                    res.set(k, c);
                    assert(combat_names_view(res@) == combat_names_view(before).update(k as int, c@));
                },
                None => {
                    res.push(c);
                    assert(combat_names_view(res@) == combat_names_view(before).push(c@));
                },
            }
        }
        i = i + 1;
    }
    assert(rules@.take(rules@.len() as int) == rules@);
    res
}

/// The title of a combat with these names: the names as shown, joined with ", ", or
/// "Combat" where there is none.
pub fn combat_title(names: &Vec<CombatName>) -> (res: String)
    ensures
        res@ == spec_title(combat_names_view(names@)),
{
    if names.len() == 0 {
        proof {
            reveal_strlit("Combat");
            assert("Combat"@ =~= seq!['C', 'o', 'm', 'b', 'a', 't']);
        }
        return String::from_str("Combat");
    }
    let mut formatted: Vec<String> = Vec::new();
    let mut i: usize = 0;
    while i < names.len()
        invariant
            i <= names@.len(),
            strings_view(formatted@) == combat_names_view(names@).take(i as int).map_values(
                |c: SpecCombatName| spec_format(c),
            ),
        decreases names@.len() - i,
    {
        let f = names[i].format();
        let ghost before = formatted@;
        formatted.push(f);
        proof {
            assert(strings_view(formatted@) == strings_view(before).push(f@));
            assert(combat_names_view(names@).take(i + 1).map_values(|c: SpecCombatName| spec_format(c))
                == combat_names_view(names@).take(i as int).map_values(|c: SpecCombatName| spec_format(c)).push(spec_format(names@[i as int]@)));
        }
        i = i + 1;
    }
    assert(combat_names_view(names@).take(names@.len() as int) == combat_names_view(names@));
    let res = join_strings(&formatted, ", ");
    proof {
        reveal_strlit(", ");
        assert(", "@ =~= seq![',', ' ']);
    }
    res
}

/// The name of a rule group where it matches the names of a combat.
pub open spec fn name_if_matches(nm: NameManager) -> spec_fn(RulesGroup) -> Option<Seq<char>> {
    |g: RulesGroup| if nm.spec_matches(g) {
        Some(g.name@)
    } else {
        None
    }
}

/// Whether `x` is the name of one of `rules` that matches the names of a combat.
pub open spec fn names_a_matching_group(rules: Seq<RulesGroup>, nm: NameManager, x: Seq<char>) -> bool {
    exists|i: int| 0 <= i < rules.len() && nm.spec_matches(rules[i]) && rules[i].name@ == x
}

/// The names of the rule groups among `rules` that match: each matching group's name,
/// in the order of the groups, and nothing else.
proof fn lemma_matching_names(rules: Seq<RulesGroup>, nm: NameManager)
    ensures
        matching_names(rules, nm) == rules.filter_map(name_if_matches(nm)),
        forall|i: int| 0 <= i < rules.len() && nm.spec_matches(rules[i]) ==> matching_names(rules, nm).contains(
            rules[i].name@,
        ),
        forall|k: int|
            0 <= k < matching_names(rules, nm).len() ==> names_a_matching_group(
                rules,
                nm,
                #[trigger] matching_names(rules, nm)[k],
            ),
    decreases rules.len(),
{
    if rules.len() > 0 {
        let rest = rules.drop_last();
        lemma_matching_names(rest, nm);
        let prev = matching_names(rest, nm);
        let f = name_if_matches(nm);
        if nm.spec_matches(rules.last()) {
            assert(prev.push(rules.last().name@) =~= rest.filter_map(f) + seq![rules.last().name@]);
        }
        assert forall|i: int| 0 <= i < rules.len() && nm.spec_matches(rules[i]) implies matching_names(
            rules,
            nm,
        ).contains(rules[i].name@) by {
            if i < rules.len() - 1 {
                assert(rest[i] == rules[i]);
                let k = choose|k: int| 0 <= k < prev.len() && prev[k] == rest[i].name@;
                assert(matching_names(rules, nm)[k] == rules[i].name@);
            } else {
                assert(matching_names(rules, nm)[prev.len() as int] == rules[i].name@);
            }
        }
        assert forall|k: int| 0 <= k < matching_names(rules, nm).len() implies names_a_matching_group(
            rules,
            nm,
            #[trigger] matching_names(rules, nm)[k],
        ) by {
            if k < prev.len() {
                assert(names_a_matching_group(rest, nm, prev[k]));
                let i = choose|i: int| 0 <= i < rest.len() && nm.spec_matches(rest[i]) && rest[i].name@ == prev[k];
                assert(rules[i] == rest[i]);
            } else {
                assert(rules[rules.len() - 1] == rules.last());
            }
        }
    }
}

/// The combat name that a naming rule gives is named after the rule, and its
/// additional infos are the names of exactly those additional info rule groups that
/// match the combat's names, in the order of the rules: each matching group (whether or
/// not an earlier one matched) gives its name, and no other name is there.
pub proof fn law_additional_infos(rule: CombatNameRule, nm: NameManager)
    ensures
        combat_name_of(rule, nm).name == rule.name_rule.name@,
        combat_name_of(rule, nm).additional_infos == rule.additional_info_rules@.filter_map(name_if_matches(nm)),
        forall|i: int|
            0 <= i < rule.additional_info_rules@.len() && nm.spec_matches(rule.additional_info_rules@[i])
                ==> combat_name_of(rule, nm).additional_infos.contains(rule.additional_info_rules@[i].name@),
        forall|k: int|
            0 <= k < combat_name_of(rule, nm).additional_infos.len() ==> names_a_matching_group(
                rule.additional_info_rules@,
                nm,
                #[trigger] combat_name_of(rule, nm).additional_infos[k],
            ),
{
    lemma_matching_names(rule.additional_info_rules@, nm);
}

/// Where a combat name called `n` is among `names`: at `name_index`, or nowhere.
proof fn lemma_name_index_found(names: Seq<SpecCombatName>, n: Seq<char>)
    ensures
        -1 <= name_index(names, n) < names.len(),
        name_index(names, n) >= 0 ==> names[name_index(names, n)].name == n,
        name_index(names, n) == -1 ==> forall|k: int| 0 <= k < names.len() ==> #[trigger] names[k].name != n,
    decreases names.len(),
{
    if names.len() > 0 {
        lemma_name_index_found(names.drop_last(), n);
        assert forall|k: int| 0 <= k < names.len() - 1 implies #[trigger] names[k] == names.drop_last()[k] by {}
    }
}

/// Whether the naming rule at `i` gives the combat name `c`: its name rule matches, it
/// gives `c`, and no later matching rule has the same name.
pub open spec fn last_rule_giving(rules: Seq<CombatNameRule>, nm: NameManager, i: int, c: SpecCombatName) -> bool {
    &&& 0 <= i < rules.len()
    &&& nm.spec_matches(rules[i].name_rule)
    &&& c == combat_name_of(rules[i], nm)
    &&& forall|j: int|
        i < j < rules.len() && nm.spec_matches(#[trigger] rules[j].name_rule) ==> rules[j].name_rule.name@ != c.name
}

/// Whether one of the naming rules is the last matching rule that gives `c`.
pub open spec fn given_by_last_rule(rules: Seq<CombatNameRule>, nm: NameManager, c: SpecCombatName) -> bool {
    exists|i: int| last_rule_giving(rules, nm, i, c)
}

/// The names of a combat: every naming rule whose name rule matches the combat's names
/// gives a combat name of its name; each combat name is the one that the last matching
/// rule of its name gives; and no two combat names have the same name.
pub proof fn law_combat_names(rules: Seq<CombatNameRule>, nm: NameManager)
    ensures
        forall|i: int|
            0 <= i < rules.len() && nm.spec_matches(#[trigger] rules[i].name_rule) ==> exists|k: int|
                0 <= k < spec_combat_names(rules, nm).len() && spec_combat_names(rules, nm)[k].name
                    == rules[i].name_rule.name@,
        forall|k: int|
            0 <= k < spec_combat_names(rules, nm).len() ==> given_by_last_rule(
                rules,
                nm,
                #[trigger] spec_combat_names(rules, nm)[k],
            ),
        forall|a: int, b: int|
            0 <= a < b < spec_combat_names(rules, nm).len() ==> spec_combat_names(rules, nm)[a].name
                != spec_combat_names(rules, nm)[b].name,
    decreases rules.len(),
{
    if rules.len() > 0 {
        let rest = rules.drop_last();
        let last = rules.len() - 1;
        law_combat_names(rest, nm);
        let prev = spec_combat_names(rest, nm);
        let res = spec_combat_names(rules, nm);
        assert forall|i: int| 0 <= i < last implies #[trigger] rules[i] == rest[i] by {}
        if !nm.spec_matches(rules[last].name_rule) {
            assert(res == prev);
            assert forall|i: int|
                0 <= i < rules.len() && nm.spec_matches(#[trigger] rules[i].name_rule) implies exists|k: int|
                    0 <= k < res.len() && res[k].name == rules[i].name_rule.name@ by {
                assert(rest[i] == rules[i]);
            }
            assert forall|k: int| 0 <= k < res.len() implies given_by_last_rule(rules, nm, #[trigger] res[k]) by {
                assert(given_by_last_rule(rest, nm, prev[k]));
                    let i = choose|i: int| last_rule_giving(rest, nm, i, prev[k]);
                assert(rest[i] == rules[i]);
                assert forall|j: int|
                    i < j < rules.len() && nm.spec_matches(#[trigger] rules[j].name_rule) implies rules[j].name_rule.name@
                        != res[k].name by {
                    if j < last {
                        assert(rest[j] == rules[j]);
                    }
                }
                assert(last_rule_giving(rules, nm, i, res[k]));
            }
        } else {
            let c = combat_name_of(rules[last], nm);
            let k0 = name_index(prev, c.name);
            lemma_name_index_found(prev, c.name);
            assert(rules.last() == rules[last]);
            if k0 >= 0 {
                assert(res == prev.update(k0, c));
            } else {
                assert(res == prev.push(c));
            }
            assert forall|a: int, b: int| 0 <= a < b < res.len() implies res[a].name != res[b].name by {
                if k0 < 0 && b == prev.len() {
                    assert(prev[a].name != c.name);
                } else if a == k0 {
                    assert(prev[a].name != prev[b].name);
                } else if b == k0 {
                    assert(prev[a].name != prev[b].name);
                } else {
                    assert(prev[a].name != prev[b].name);
                }
            }
            assert forall|i: int|
                0 <= i < rules.len() && nm.spec_matches(#[trigger] rules[i].name_rule) implies exists|k: int|
                    0 <= k < res.len() && res[k].name == rules[i].name_rule.name@ by {
                if i == last {
                    if k0 >= 0 {
                        assert(res[k0].name == rules[i].name_rule.name@);
                    } else {
                        assert(res[prev.len() as int].name == rules[i].name_rule.name@);
                    }
                } else {
                    assert(rest[i] == rules[i]);
                    let k = choose|k: int| 0 <= k < prev.len() && prev[k].name == rest[i].name_rule.name@;
                    assert(res[k].name == rules[i].name_rule.name@);
                }
            }
            assert forall|k: int| 0 <= k < res.len() implies given_by_last_rule(rules, nm, #[trigger] res[k]) by {
                if k == k0 || (k0 < 0 && k == prev.len()) {
                    assert(res[k] == c);
                    assert(last_rule_giving(rules, nm, last, res[k]));
                } else {
                    assert(res[k] == prev[k]);
                    assert(given_by_last_rule(rest, nm, prev[k]));
                    let i = choose|i: int| last_rule_giving(rest, nm, i, prev[k]);
                    assert(rest[i] == rules[i]);
                    if k0 >= 0 {
                        assert(prev[k].name != prev[k0].name);
                    } else {
                        assert(prev[k].name != c.name);
                    }
                    assert forall|j: int|
                        i < j < rules.len() && nm.spec_matches(#[trigger] rules[j].name_rule) implies rules[j].name_rule.name@
                            != res[k].name by {
                        if j < last {
                            assert(rest[j] == rules[j]);
                        }
                    }
                    assert(last_rule_giving(rules, nm, i, res[k]));
                }
            }
        }
    }
}

/// Joining parts puts `sep` between each two of them: one part stands alone, and one
/// more part comes after the others and a separator.
pub proof fn law_join(parts: Seq<Seq<char>>, x: Seq<char>, sep: Seq<char>)
    ensures
        join(Seq::<Seq<char>>::empty(), sep) == Seq::<char>::empty(),
        join(seq![x], sep) == x,
        parts.len() > 0 ==> join(parts.push(x), sep) == join(parts, sep) + sep + x,
{
    assert(parts.push(x).drop_last() == parts);
    assert(seq![x].len() == 1);
}

/// A combat name is shown as its name, followed by its additional infos, joined by
/// ", ", in brackets where it has any; a combat's title shows its names joined by ", ",
/// or "Combat" where it has none.
pub proof fn law_format_and_title(names: Seq<SpecCombatName>, c: SpecCombatName)
    ensures
        c.additional_infos.len() == 0 ==> spec_format(c) == c.name,
        c.additional_infos.len() > 0 ==> spec_format(c) == c.name + " ("@ + join(c.additional_infos, ", "@) + ")"@,
        spec_title(Seq::<SpecCombatName>::empty()) == "Combat"@,
        spec_title(seq![c]) == spec_format(c),
        names.len() > 0 ==> spec_title(names.push(c)) == spec_title(names) + ", "@ + spec_format(c),
{
    reveal_strlit(" (");
    reveal_strlit(", ");
    reveal_strlit(")");
    reveal_strlit("Combat");
    assert(" ("@ =~= seq![' ', '(']);
    assert(", "@ =~= seq![',', ' ']);
    assert(")"@ =~= seq![')']);
    assert("Combat"@ =~= seq!['C', 'o', 'm', 'b', 'a', 't']);
    let f = |x: SpecCombatName| spec_format(x);
    assert(seq![c].map_values(f) =~= seq![spec_format(c)]);
    if names.len() > 0 {
        assert(names.push(c).map_values(f) =~= names.map_values(f).push(spec_format(c)));
        law_join(names.map_values(f), spec_format(c), ", "@);
    }
    law_join(Seq::<Seq<char>>::empty(), spec_format(c), ", "@);
}

} // verus!

use vstd::prelude::*;

use crate::text::{is_ascii_digit, is_decimal_digit, is_decimal_digit_char, is_white_space, is_whitespace, str_chars};

verus! {

/// One side of a combat log record: nobody, a player, a non player entity or a
/// non player character.
#[derive(Debug, Clone, Copy)]
pub enum Entity<'a> {
    Absent,
    Player { full_name: &'a str, id: (u64, u64) },
    NonPlayer { name: &'a str, id: u64, unique_name: &'a str },
    NonPlayerCharacter { id: u64, name: &'a str },
}

/// The mathematical model of an [`Entity`].
pub enum SpecEntity {
    Absent,
    Player { full_name: Seq<char>, id: (u64, u64) },
    NonPlayer { name: Seq<char>, id: u64, unique_name: Seq<char> },
    NonPlayerCharacter { id: u64, name: Seq<char> },
}

impl<'a> View for Entity<'a> {
    type V = SpecEntity;

    open spec fn view(&self) -> SpecEntity {
        match *self {
            Entity::Absent => SpecEntity::Absent,
            Entity::Player { full_name, id } => SpecEntity::Player { full_name: full_name@, id },
            Entity::NonPlayer { name, id, unique_name } => SpecEntity::NonPlayer {
                name: name@,
                id,
                unique_name: unique_name@,
            },
            Entity::NonPlayerCharacter { id, name } => SpecEntity::NonPlayerCharacter {
                id,
                name: name@,
            },
        }
    }
}

impl SpecEntity {
    /// The name: a player's full name, or the name of anything else.
    pub open spec fn name(self) -> Option<Seq<char>> {
        match self {
            SpecEntity::Absent => None,
            SpecEntity::Player { full_name, .. } => Some(full_name),
            SpecEntity::NonPlayer { name, .. } => Some(name),
            SpecEntity::NonPlayerCharacter { name, .. } => Some(name),
        }
    }

    /// The unique name: a player's full name, or a non player's unique name.
    pub open spec fn unique_name(self) -> Option<Seq<char>> {
        match self {
            SpecEntity::Absent => None,
            SpecEntity::Player { full_name, .. } => Some(full_name),
            SpecEntity::NonPlayer { unique_name, .. } => Some(unique_name),
            SpecEntity::NonPlayerCharacter { .. } => None,
        }
    }
}

/// Where the parts of an entity's id text lie: the kind letter, the id digits, the
/// optional player id digits and the optional unique name, as index ranges.
#[derive(Clone, Copy)]
pub struct IdMatch {
    pub kind: char,
    pub id: (usize, usize),
    pub player_id: Option<(usize, usize)>,
    pub unique_name: Option<(usize, usize)>,
}

/// The first index at or after `i` that does not hold a decimal digit.
pub open spec fn digits_end(s: Seq<char>, i: int) -> int
    decreases s.len() - i,
{
    if i < 0 || i >= s.len() || !is_decimal_digit(s[i]) {
        i
    } else {
        digits_end(s, i + 1)
    }
}

/// The first index at or after `i` that does not hold white space.
pub open spec fn white_end(s: Seq<char>, i: int) -> int
    decreases s.len() - i,
{
    if i < 0 || i >= s.len() || !is_white_space(s[i]) {
        i
    } else {
        white_end(s, i + 1)
    }
}

/// The first index at or after `i` that holds `]`, or the length of `s`.
pub open spec fn close_end(s: Seq<char>, i: int) -> int
    decreases s.len() - i,
{
    if i < 0 || i >= s.len() || s[i] == ']' {
        i
    } else {
        close_end(s, i + 1)
    }
}

/// The match, starting at index `p`, of the id pattern
/// `(P|C|S)\[(\d+)(@(\d+))?(\s+([^\]]+))?\]` (`\d` being any decimal digit and `\s`
/// any white space), with the preferences of a backtracking search: every repetition as
/// long as possible.
pub open spec fn match_at(s: Seq<char>, p: int) -> Option<IdMatch> {
    if p < 0 || p + 1 >= s.len() || !(s[p] == 'P' || s[p] == 'C' || s[p] == 'S') || s[p + 1]
        != '[' {
        None
    } else {
        let a = p + 2;
        let b = digits_end(s, a);
        if b == a {
            None
        } else {
            let has_player = b + 1 < s.len() && s[b] == '@' && is_decimal_digit(s[b + 1]);
            let c = if has_player {
                digits_end(s, b + 1)
            } else {
                b
            };
            let player_id = if has_player {
                Some(((b + 1) as usize, c as usize))
            } else {
                None
            };
            if c < s.len() && is_white_space(s[c]) {
                let w = white_end(s, c);
                let r = close_end(s, w);
                if r >= s.len() {
                    None
                } else if r > w {
                    Some(
                        IdMatch {
                            kind: s[p],
                            id: (a as usize, b as usize),
                            player_id,
                            unique_name: Some((w as usize, r as usize)),
                        },
                    )
                } else if w - c >= 2 {
                    Some(
                        IdMatch {
                            kind: s[p],
                            id: (a as usize, b as usize),
                            player_id,
                            unique_name: Some(((w - 1) as usize, w as usize)),
                        },
                    )
                } else {
                    None
                }
            } else if c < s.len() && s[c] == ']' {
                Some(
                    IdMatch {
                        kind: s[p],
                        id: (a as usize, b as usize),
                        player_id,
                        unique_name: None,
                    },
                )
            } else {
                None
            }
        }
    }
}

/// The leftmost match of the id pattern at or after index `p`.
pub open spec fn first_match_from(s: Seq<char>, p: int) -> Option<IdMatch>
    decreases s.len() - p,
{
    if p < 0 || p >= s.len() {
        None
    } else if match_at(s, p) is Some {
        match_at(s, p)
    } else {
        first_match_from(s, p + 1)
    }
}

/// The value of a string of ASCII digits.
pub open spec fn decimal_value(s: Seq<char>) -> nat
    decreases s.len(),
{
    if s.len() == 0 {
        0
    } else {
        decimal_value(s.drop_last()) * 10 + (s.last() as nat - '0' as nat) as nat
    }
}

/// What `str::parse::<u64>` gives for a nonempty string of decimal digits: only ASCII
/// digits that make a value that fits are a number.
pub open spec fn digits_to_u64(s: Seq<char>) -> Option<u64> {
    if (forall|j: int| 0 <= j < s.len() ==> is_ascii_digit(#[trigger] s[j])) && decimal_value(s) <= u64::MAX {
        Some(decimal_value(s) as u64)
    } else {
        None
    }
}

pub open spec fn range_of(s: Seq<char>, r: (usize, usize)) -> Seq<char> {
    s.subrange(r.0 as int, r.1 as int)
}

/// The entity that a record's name text and id text describe, or `None` where they
/// describe none.
pub open spec fn spec_entity_parse(name: Seq<char>, id_text: Seq<char>) -> Option<SpecEntity> {
    if name.len() == 0 && (id_text.len() == 0 || id_text == seq!['*']) {
        Some(SpecEntity::Absent)
    } else {
        match first_match_from(id_text, 0) {
            None => None,
            Some(m) => match digits_to_u64(range_of(id_text, m.id)) {
                None => None,
                Some(id) => if m.kind == 'P' {
                    match m.player_id {
                        None => None,
                        Some(pr) => match digits_to_u64(range_of(id_text, pr)) {
                            None => None,
                            Some(player_id) => match m.unique_name {
                                None => None,
                                Some(u) => Some(
                                    SpecEntity::Player {
                                        full_name: range_of(id_text, u),
                                        id: (id, player_id),
                                    },
                                ),
                            },
                        },
                    }
                } else if m.kind == 'C' {
                    match m.unique_name {
                        None => None,
                        Some(u) => Some(
                            SpecEntity::NonPlayer { name, id, unique_name: range_of(id_text, u) },
                        ),
                    }
                } else {
                    Some(SpecEntity::NonPlayerCharacter { id, name })
                },
            },
        }
    }
}

/// Where a run of digits ends.
proof fn lemma_digits_end(s: Seq<char>, i: int)
    requires
        0 <= i <= s.len(),
    ensures
        i <= digits_end(s, i) <= s.len(),
        forall|j: int| i <= j < digits_end(s, i) ==> is_decimal_digit(s[j]),
        digits_end(s, i) < s.len() ==> !is_decimal_digit(s[digits_end(s, i)]),
    decreases s.len() - i,
{
    if i < s.len() && is_decimal_digit(s[i]) {
        lemma_digits_end(s, i + 1);
    }
}

/// Where a run of white space ends.
proof fn lemma_white_end(s: Seq<char>, i: int)
    requires
        0 <= i <= s.len(),
    ensures
        i <= white_end(s, i) <= s.len(),
    decreases s.len() - i,
{
    if i < s.len() && is_white_space(s[i]) {
        lemma_white_end(s, i + 1);
    }
}

/// Where the text before a closing bracket ends.
proof fn lemma_close_end(s: Seq<char>, i: int)
    requires
        0 <= i <= s.len(),
    ensures
        i <= close_end(s, i) <= s.len(),
    decreases s.len() - i,
{
    if i < s.len() && s[i] != ']' {
        lemma_close_end(s, i + 1);
    }
}

/// The end of the run of digits at `i`.
fn scan_digits(s: &Vec<char>, i: usize) -> (res: usize)
    requires
        i <= s@.len(),
    ensures
        res == digits_end(s@, i as int),
        i <= res <= s@.len(),
{
    let mut j = i;
    while j < s.len() && is_decimal_digit_char(s[j])
        invariant
            i <= j <= s@.len(),
            digits_end(s@, i as int) == digits_end(s@, j as int),
        decreases s@.len() - j,
    {
        j = j + 1;
    }
    j
}

/// The end of the run of white space at `i`.
fn scan_white(s: &Vec<char>, i: usize) -> (res: usize)
    requires
        i <= s@.len(),
    ensures
        res == white_end(s@, i as int),
        i <= res <= s@.len(),
{
    let mut j = i;
    while j < s.len() && is_whitespace(s[j])
        invariant
            i <= j <= s@.len(),
            white_end(s@, i as int) == white_end(s@, j as int),
        decreases s@.len() - j,
    {
        j = j + 1;
    }
    j
}

/// The index of the first closing bracket at or after `i`, or the length.
fn scan_close(s: &Vec<char>, i: usize) -> (res: usize)
    requires
        i <= s@.len(),
    ensures
        res == close_end(s@, i as int),
        i <= res <= s@.len(),
{
    let mut j = i;
    while j < s.len() && s[j] != ']'
        invariant
            i <= j <= s@.len(),
            close_end(s@, i as int) == close_end(s@, j as int),
        decreases s@.len() - j,
    {
        j = j + 1;
    }
    j
}

/// The match of the id pattern starting at index `p`.
fn id_match_at(s: &Vec<char>, p: usize) -> (res: Option<IdMatch>)
    requires
        p <= s@.len(),
    ensures
        res == match_at(s@, p as int),
        res matches Some(m) ==> {
            &&& m.id.0 <= m.id.1 <= s@.len()
            &&& (m.player_id matches Some(r) ==> r.0 <= r.1 <= s@.len())
            &&& (m.unique_name matches Some(r) ==> r.0 <= r.1 <= s@.len())
            &&& m.id.0 < m.id.1
            &&& (m.player_id matches Some(r) ==> r.0 < r.1)
        },
{
    let n = s.len();
    if n < 2 || p >= n - 1 {
        return None;
    }
    let kind = s[p];
    if !(kind == 'P' || kind == 'C' || kind == 'S') || s[p + 1] != '[' {
        return None;
    }
    let a = p + 2;
    let b = scan_digits(s, a);
    proof {
        lemma_digits_end(s@, a as int);
    }
    if b == a {
        return None;
    }
    let has_player = b < n - 1 && s[b] == '@' && is_decimal_digit_char(s[b + 1]);
    let c = if has_player {
        scan_digits(s, b + 1)
    } else {
        b
    };
    proof {
        if has_player {
            lemma_digits_end(s@, b + 1);
        }
    }
    let player_id = if has_player {
        Some((b + 1, c))
    } else {
        None
    };
    if c < n && is_whitespace(s[c]) {
        let w = scan_white(s, c);
        let r = scan_close(s, w);
        if r >= n {
            None
        } else if r > w {
            Some(IdMatch { kind, id: (a, b), player_id, unique_name: Some((w, r)) })
        } else if w - c >= 2 {
            Some(IdMatch { kind, id: (a, b), player_id, unique_name: Some((w - 1, w)) })
        } else {
            None
        }
    } else if c < n && s[c] == ']' {
        Some(IdMatch { kind, id: (a, b), player_id, unique_name: None })
    } else {
        None
    }
}

/// The leftmost match of the id pattern in `s`.
fn first_id_match(s: &Vec<char>) -> (res: Option<IdMatch>)
    ensures
        res == first_match_from(s@, 0),
        res matches Some(m) ==> {
            &&& m.id.0 < m.id.1 <= s@.len()
            &&& (m.player_id matches Some(r) ==> r.0 < r.1 <= s@.len())
            &&& (m.unique_name matches Some(r) ==> r.0 <= r.1 <= s@.len())
        },
{
    let mut p: usize = 0;
    while p < s.len()
        invariant
            p <= s@.len(),
            first_match_from(s@, 0) == first_match_from(s@, p as int),
        decreases s@.len() - p,
    {
        let m = id_match_at(s, p);
        if m.is_some() {
            return m;
        }
        p = p + 1;
    }
    None
}

/// The value of a prefix of digits is at most the value of the digits.
proof fn lemma_decimal_prefix_bound(s: Seq<char>, k: int)
    requires
        0 <= k <= s.len(),
        forall|j: int| 0 <= j < s.len() ==> is_ascii_digit(#[trigger] s[j]),
    ensures
        decimal_value(s) >= decimal_value(s.take(k)),
    decreases s.len() - k,
{
    if k < s.len() {
        lemma_decimal_prefix_bound(s, k + 1);
        assert(s.take(k + 1).drop_last() == s.take(k));
        assert(is_ascii_digit(s.take(k + 1).last()));
        assert(decimal_value(s.take(k + 1)) == decimal_value(s.take(k)) * 10 + (s.take(k
            + 1).last() as nat - '0' as nat) as nat);
    } else {
        assert(s.take(k) == s);
    }
}

/// The value of the digits `s[a..b]`, or `None` where one of them is not an ASCII digit
/// or the value exceeds `u64::MAX`.
fn parse_digits(s: &Vec<char>, a: usize, b: usize) -> (res: Option<u64>)
    requires
        a <= b <= s@.len(),
    ensures
        res == digits_to_u64(s@.subrange(a as int, b as int)),
{
    let ghost full = s@.subrange(a as int, b as int);
    let mut k = a;
    while k < b
        invariant
            a <= k <= b <= s@.len(),
            full == s@.subrange(a as int, b as int),
            forall|j: int| a <= j < k ==> is_ascii_digit(#[trigger] s@[j]),
        decreases b - k,
    {
        if !('0' <= s[k] && s[k] <= '9') {
            assert(!is_ascii_digit(full[k - a]));
            return None;
        }
        k = k + 1;
    }
    assert(forall|j: int| 0 <= j < full.len() ==> is_ascii_digit(#[trigger] full[j]) <== is_ascii_digit(s@[a + j]));
    let mut value: u64 = 0;
    let mut i = a;
    while i < b
        invariant
            a <= i <= b <= s@.len(),
            full == s@.subrange(a as int, b as int),
            forall|j: int| a <= j < b ==> is_ascii_digit(#[trigger] s@[j]),
            value == decimal_value(s@.subrange(a as int, i as int)),
        decreases b - i,
    {
        let digit = (s[i] as u32 - '0' as u32) as u64;
        proof {
            assert(s@.subrange(a as int, i + 1).drop_last() == s@.subrange(a as int, i as int));
        }
        match value.checked_mul(10) {
            None => {
                proof {
                    assert(full.take(i + 1 - a) == s@.subrange(a as int, i + 1));
                    lemma_decimal_prefix_bound(full, i + 1 - a);
                }
                return None;
            },
            Some(v) => match v.checked_add(digit) {
                None => {
                    proof {
                        assert(full.take(i + 1 - a) == s@.subrange(a as int, i + 1));
                        lemma_decimal_prefix_bound(full, i + 1 - a);
                    }
                    return None;
                },
                Some(v2) => {
                    value = v2;
                },
            },
        }
        i = i + 1;
    }
    Some(value)
}

impl<'a> Entity<'a> {
    /// Parses an entity from the name text and the id text of a record.
    pub fn parse(name: &'a str, id_and_unique_name: &'a str) -> (res: Option<Self>)
        ensures
            match res {
                Some(e) => spec_entity_parse(name@, id_and_unique_name@) == Some(e@),
                None => spec_entity_parse(name@, id_and_unique_name@) is None,
            },
    {
        let id_chars = str_chars(id_and_unique_name);
        let name_chars = str_chars(name);
        if name_chars.len() == 0 && (id_chars.len() == 0 || (id_chars.len() == 1 && id_chars[0]
            == '*')) {
            proof {
                if id_chars@.len() == 1 && id_chars@[0] == '*' {
                    assert(id_and_unique_name@ == seq!['*']);
                }
            }
            return Some(Entity::Absent);
        }
        proof {
            if id_and_unique_name@ == seq!['*'] {
                assert(id_chars@[0] == '*');
            }
        }
        let m = match first_id_match(&id_chars) {
            None => return None,
            Some(m) => m,
        };
        let id = match parse_digits(&id_chars, m.id.0, m.id.1) {
            None => return None,
            Some(id) => id,
        };
        if m.kind == 'P' {
            let pr = match m.player_id {
                None => return None,
                Some(pr) => pr,
            };
            let player_id = match parse_digits(&id_chars, pr.0, pr.1) {
                None => return None,
                Some(v) => v,
            };
            let u = match m.unique_name {
                None => return None,
                Some(u) => u,
            };
            let full_name = id_and_unique_name.substring_char(u.0, u.1);
            Some(Entity::Player { full_name, id: (id, player_id) })
        } else if m.kind == 'C' {
            let u = match m.unique_name {
                None => return None,
                Some(u) => u,
            };
            let unique_name = id_and_unique_name.substring_char(u.0, u.1);
            Some(Entity::NonPlayer { name, id, unique_name })
        } else {
            Some(Entity::NonPlayerCharacter { id, name })
        }
    }

    /// The name: a player's full name, otherwise the entity's name.
    pub fn name(&self) -> (res: Option<&'a str>)
        ensures
            match res {
                Some(n) => self@.name() == Some(n@),
                None => self@.name() is None,
            },
    {
        match *self {
            Entity::Absent => None,
            Entity::Player { full_name, .. } => Some(full_name),
            Entity::NonPlayer { name, .. } => Some(name),
            Entity::NonPlayerCharacter { name, .. } => Some(name),
        }
    }

    /// The unique name: a player's full name or a non player's unique name.
    pub fn unique_name(&self) -> (res: Option<&'a str>)
        ensures
            match res {
                Some(n) => self@.unique_name() == Some(n@),
                None => self@.unique_name() is None,
            },
    {
        match *self {
            Entity::Absent => None,
            Entity::Player { full_name, .. } => Some(full_name),
            Entity::NonPlayer { unique_name, .. } => Some(unique_name),
            Entity::NonPlayerCharacter { .. } => None,
        }
    }

    /// Whether the entity is a player.
    pub fn is_player(&self) -> (res: bool)
        ensures
            res == (self is Player),
    {
        match self {
            Entity::Player { .. } => true,
            _ => false,
        }
    }

    /// Whether there is no entity.
    pub fn is_none(&self) -> (res: bool)
        ensures
            res == (self is Absent),
    {
        match self {
            Entity::Absent => true,
            _ => false,
        }
    }
}

} // verus!

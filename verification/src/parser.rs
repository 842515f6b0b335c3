use std::ops::Range;
use vstd::prelude::*;
use vstd::string::StringExecFns;

use crate::entity::{spec_entity_parse, Entity, SpecEntity};
use crate::flags::{value_flags_union, ValueFlags};
use crate::text::{next_field, remaining_fields, split, str_chars, trim, trim_range};
use crate::time::{log_time_millis, parse_log_time, timestamp_in_range};

verus! {

/// One line of the combat log, split into its parts. The two numbers of the line
/// are kept as their text.
#[derive(Debug, Clone)]
pub struct Record<'a> {
    /// Milliseconds since the Unix epoch.
    pub time: i64,
    pub source: Entity<'a>,
    pub target: Entity<'a>,
    /// E.g. a pet.
    pub indirect_source: Entity<'a>,
    pub value_name: &'a str,
    pub value_type: &'a str,
    pub value_flags: ValueFlags,
    /// The first number of the line (the amount).
    pub value1: &'a str,
    /// The second number of the line (the base amount).
    pub value2: &'a str,
    pub raw: &'a str,
    pub log_pos: Option<Range<u64>>,
}

/// Why no record came from the log.
#[derive(Debug)]
pub enum RecordError<'a> {
    EndReached,
    InvalidRecord(&'a str),
}

/// The mathematical model of a [`Record`] without its raw text and log position.
pub struct SpecRecord {
    pub time: i64,
    pub source: SpecEntity,
    pub target: SpecEntity,
    pub indirect_source: SpecEntity,
    pub value_name: Seq<char>,
    pub value_type: Seq<char>,
    pub value_flags: u8,
    pub value1: Seq<char>,
    pub value2: Seq<char>,
}

impl<'a> View for Record<'a> {
    type V = SpecRecord;

    open spec fn view(&self) -> SpecRecord {
        SpecRecord {
            time: self.time,
            source: self.source@,
            target: self.target@,
            indirect_source: self.indirect_source@,
            value_name: self.value_name@,
            value_type: self.value_type@,
            value_flags: self.value_flags.bits,
            value1: self.value1@,
            value2: self.value2@,
        }
    }
}

/// The index of the first `::` at or after `start`, or the length of `s`.
pub open spec fn pattern_end(s: Seq<char>, start: int) -> int
    decreases s.len() - start,
{
    if start < 0 || start + 1 >= s.len() {
        s.len() as int
    } else if s[start] == ':' && s[start + 1] == ':' {
        start
    } else {
        pattern_end(s, start + 1)
    }
}

/// Where the text before the next "::" ends.
proof fn lemma_pattern_end(s: Seq<char>, start: int)
    requires
        0 <= start <= s.len(),
    ensures
        start <= pattern_end(s, start) <= s.len(),
        pattern_end(s, start) < s.len() ==> pattern_end(s, start) + 2 <= s.len(),
    decreases s.len() - start,
{
    if start + 1 < s.len() && !(s[start] == ':' && s[start + 1] == ':') {
        lemma_pattern_end(s, start + 1);
    }
}

/// The time (the text before the first `::`, completed to three fraction digits)
/// and the source name (the text between the first and the second `::`).
pub open spec fn spec_time_and_source_name(text: Seq<char>) -> Option<(i64, Seq<char>)> {
    let e1 = pattern_end(text, 0);
    match log_time_millis(text.subrange(0, e1) + seq!['0', '0']) {
        None => None,
        Some(time) => if e1 >= text.len() {
            None
        } else {
            Some((time, text.subrange(e1 + 2, pattern_end(text, e1 + 2))))
        },
    }
}

/// The record that a line of the log describes, or `None` where it describes none.
pub open spec fn spec_parse_line(line: Seq<char>) -> Option<SpecRecord> {
    let f = split(line, ',');
    if f.len() < 12 {
        None
    } else {
        match spec_time_and_source_name(trim(f[0])) {
            None => None,
            Some((time, source_name)) => match spec_entity_parse(source_name, trim(f[1])) {
                None => None,
                Some(source) => match spec_entity_parse(trim(f[2]), trim(f[3])) {
                    None => None,
                    Some(indirect_source) => match spec_entity_parse(trim(f[4]), trim(f[5])) {
                        None => None,
                        Some(target) => Some(
                            SpecRecord {
                                time,
                                source,
                                target,
                                indirect_source,
                                value_name: trim(f[6]),
                                value_type: trim(f[8]),
                                value_flags: value_flags_union(split(trim(f[9]), '|')),
                                value1: trim(f[10]),
                                value2: trim(f[11]),
                            },
                        ),
                    },
                },
            },
        }
    }
}

/// The index of the next "::" at or after `start`, or the length.
fn scan_pattern(s: &Vec<char>, start: usize) -> (res: usize)
    requires
        start <= s@.len(),
    ensures
        res == pattern_end(s@, start as int),
{
    let n = s.len();
    let mut i = start;
    while i < n && !(i < n - 1 && s[i] == ':' && s[i + 1] == ':')
        invariant
            start <= i <= n,
            n == s@.len(),
            pattern_end(s@, start as int) == pattern_end(s@, i as int),
        decreases n - i,
    {
        i = i + 1;
    }
    if n == 0 || i >= n - 1 {
        n
    } else {
        i
    }
}

pub open spec fn pieces_of(s: Seq<char>, ranges: Seq<(usize, usize)>) -> Seq<Seq<char>> {
    ranges.map_values(|r: (usize, usize)| s.subrange(r.0 as int, r.1 as int))
}

/// The trimmed text of `chars[range]`, as a slice of `line`.
fn trimmed_piece<'a>(line: &'a str, chars: &Vec<char>, range: (usize, usize)) -> (res: &'a str)
    requires
        chars@ == line@,
        range.0 <= range.1 <= chars@.len(),
    ensures
        res@ == trim(chars@.subrange(range.0 as int, range.1 as int)),
{
    let (a, b) = trim_range(chars, range.0, range.1);
    line.substring_char(a, b)
}

impl<'a> Record<'a> {
    /// Parses the time and the source name from the first part of a record.
    pub fn parse_time_and_source_name(text: &'a str) -> (res: Option<(i64, &'a str)>)
        ensures
            match res {
                Some((time, name)) => spec_time_and_source_name(text@) == Some((time, name@)) && timestamp_in_range(
                    time,
                ),
                None => spec_time_and_source_name(text@) is None,
            },
    {
        let chars = str_chars(text);
        let e1 = scan_pattern(&chars, 0);
        proof {
            lemma_pattern_end(chars@, 0);
        }
        let time_text = text.substring_char(0, e1);
        let mut scratch_pad = String::new();
        scratch_pad.append(time_text);
        scratch_pad.append("00");
        proof {
            reveal_strlit("00");
            assert("00"@ == seq!['0', '0']);
            assert(time_text@ == chars@.subrange(0, e1 as int));
            assert(scratch_pad@ == Seq::<char>::empty() + time_text@ + "00"@);
            assert(scratch_pad@ == chars@.subrange(0, e1 as int) + seq!['0', '0']);
        }
        let time = match parse_log_time(scratch_pad.as_str()) {
            None => return None,
            Some(t) => t,
        };
        if e1 >= chars.len() {
            return None;
        }
        let e2 = scan_pattern(&chars, e1 + 2);
        proof {
            lemma_pattern_end(chars@, e1 + 2);
        }
        Some((time, text.substring_char(e1 + 2, e2)))
    }

    /// Parses one line of the combat log.
    pub fn parse_from_line(line: &'a str, log_pos: Option<Range<u64>>) -> (res: Option<Self>)
        ensures
            match res {
                Some(r) => {
                    &&& spec_parse_line(line@) == Some(r@)
                    &&& r.raw == line
                    &&& r.log_pos == log_pos
                    &&& timestamp_in_range(r.time)
                },
                None => spec_parse_line(line@) is None,
            },
    {
        let chars = str_chars(line);
        let mut cursor: Option<usize> = Some(0);
        let mut ranges: Vec<(usize, usize)> = Vec::new();
        while ranges.len() < 12
            invariant
                chars@ == line@,
                cursor matches Some(start) ==> start <= chars@.len(),
                ranges.len() <= 12,
                forall|k: int| 0 <= k < ranges.len() ==> (#[trigger] ranges@[k]).0 <= ranges@[k].1
                    <= chars@.len(),
                split(line@, ',') == pieces_of(chars@, ranges@) + remaining_fields(
                    chars@,
                    ',',
                    cursor,
                ),
            decreases 12 - ranges.len(),
        {
            match next_field(&chars, ',', &mut cursor) {
                None => {
                    assert(split(line@, ',') == pieces_of(chars@, ranges@));
                    return None;
                },
                Some(r) => {
                    let ghost old_ranges = ranges@;
                    ranges.push(r);
                    proof {
                        assert(pieces_of(chars@, ranges@) == pieces_of(chars@, old_ranges).push(
                            chars@.subrange(r.0 as int, r.1 as int),
                        ));
                        assert(pieces_of(chars@, old_ranges) + (seq![
                            chars@.subrange(r.0 as int, r.1 as int),
                        ] + remaining_fields(chars@, ',', cursor)) == pieces_of(chars@, ranges@)
                            + remaining_fields(chars@, ',', cursor));
                    }
                },
            }
        }
        let ghost f = split(line@, ',');
        assert(forall|k: int| 0 <= k < 12 ==> f[k] == chars@.subrange(
            ranges@[k].0 as int,
            ranges@[k].1 as int,
        ));
        let time_and_source_name = trimmed_piece(line, &chars, ranges[0]);
        let (time, source_name) = match Self::parse_time_and_source_name(time_and_source_name) {
            None => return None,
            Some(v) => v,
        };
        let source_id = trimmed_piece(line, &chars, ranges[1]);
        let source = match Entity::parse(source_name, source_id) {
            None => return None,
            Some(e) => e,
        };
        let indirect_source_name = trimmed_piece(line, &chars, ranges[2]);
        let indirect_source_id = trimmed_piece(line, &chars, ranges[3]);
        let indirect_source = match Entity::parse(indirect_source_name, indirect_source_id) {
            None => return None,
            Some(e) => e,
        };
        let target_name = trimmed_piece(line, &chars, ranges[4]);
        let target_id = trimmed_piece(line, &chars, ranges[5]);
        let target = match Entity::parse(target_name, target_id) {
            None => return None,
            Some(e) => e,
        };
        let value_name = trimmed_piece(line, &chars, ranges[6]);
        let value_type = trimmed_piece(line, &chars, ranges[8]);
        let value_flags_text = trimmed_piece(line, &chars, ranges[9]);
        let value_flags = ValueFlags::parse(value_flags_text);
        let value1 = trimmed_piece(line, &chars, ranges[10]);
        let value2 = trimmed_piece(line, &chars, ranges[11]);
        Some(
            Record {
                time,
                source,
                target,
                indirect_source,
                value_name,
                value_type,
                value_flags,
                value1,
                value2,
                raw: line,
                log_pos,
            },
        )
    }

    /// Whether the record has no target and no indirect source.
    pub fn is_self_directed(&self) -> (res: bool)
        ensures
            res == (self.target is Absent && self.indirect_source is Absent),
    {
        self.target.is_none() && self.indirect_source.is_none()
    }
}

} // verus!

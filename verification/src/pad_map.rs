//! The pad map: from the four hardware coordinates of an electronics channel
//! to the pad it reads out.
//!
//! The map is written as text: one record per line, lines ended by a line
//! feed, five unsigned decimal numbers per record, separated by commas and
//! nothing else: CoBo, AsAd, AGET, channel, pad.

use crate::error::PadMapError;
use crate::fx_map::{fx_get, fx_insert, fx_new};
use fxhash::FxHashMap;
use vstd::prelude::*;

verus! {

/// One electronics channel and its pad. Two ids are equal when their four
/// coordinates are; the pad follows from them.
#[derive(Debug, Clone, Copy)]
pub struct HardwareID {
    pub cobo_id: u8,
    pub asad_id: u8,
    pub aget_id: u8,
    pub channel: u8,
    pub pad_id: u16,
}

impl PartialEq for HardwareID {
    fn eq(&self, other: &Self) -> (r: bool) {
        self.cobo_id == other.cobo_id && self.asad_id == other.asad_id && self.aget_id
            == other.aget_id && self.channel == other.channel
    }
}

impl vstd::std_specs::cmp::PartialEqSpecImpl for HardwareID {
    open spec fn obeys_eq_spec() -> bool {
        true
    }

    open spec fn eq_spec(&self, other: &Self) -> bool {
        self.cobo_id == other.cobo_id && self.asad_id == other.asad_id && self.aget_id
            == other.aget_id && self.channel == other.channel
    }
}

impl Eq for HardwareID {

}

/// The four coordinates as one number, a byte each, CoBo first.
pub open spec fn hardware_key(cobo: u8, asad: u8, aget: u8, channel: u8) -> u32 {
    (cobo as u32 * 16777216 + asad as u32 * 65536 + aget as u32 * 256 + channel as u32) as u32
}

/// Different coordinates give different keys.
pub proof fn lemma_hardware_key_injective(
    cobo: u8,
    asad: u8,
    aget: u8,
    channel: u8,
    cobo2: u8,
    asad2: u8,
    aget2: u8,
    channel2: u8,
)
    requires
        hardware_key(cobo, asad, aget, channel) == hardware_key(cobo2, asad2, aget2, channel2),
    ensures
        cobo == cobo2,
        asad == asad2,
        aget == aget2,
        channel == channel2,
{
}

/// Computes `hardware_key`.
pub fn make_key(cobo: u8, asad: u8, aget: u8, channel: u8) -> (key: u32)
    ensures
        key == hardware_key(cobo, asad, aget, channel),
{
    (cobo as u32) * 16777216 + (asad as u32) * 65536 + (aget as u32) * 256 + (channel as u32)
}

impl HardwareID {
    /// The key of this id's coordinates.
    pub open spec fn key(self) -> u32 {
        hardware_key(self.cobo_id, self.asad_id, self.aget_id, self.channel)
    }
}

/// The pad map. It is filled once and read from then on.
#[derive(Debug)]
pub struct PadMap {
    pub map: FxHashMap<u32, HardwareID>,
}

impl PadMap {
    /// Every entry stands under the key of its own coordinates.
    pub open spec fn wf(&self) -> bool {
        forall|k: u32| #[trigger] self.map@.contains_key(k) ==> self.map@[k].key() == k
    }

    /// The entries, by the key of their coordinates.
    pub open spec fn entries(&self) -> Map<u32, HardwareID> {
        self.map@
    }

    /// The entry for these coordinates, if there is one.
    pub open spec fn lookup(&self, cobo: u8, asad: u8, aget: u8, channel: u8) -> Option<
        HardwareID,
    > {
        let key = hardware_key(cobo, asad, aget, channel);
        if self.map@.contains_key(key) {
            Some(self.map@[key])
        } else {
            None
        }
    }

    /// A map without entries.
    pub fn empty() -> (pm: PadMap)
        ensures
            pm.wf(),
            pm.entries() == Map::<u32, HardwareID>::empty(),
    {
        let pm = PadMap { map: fx_new() };
        assert(pm.map@ =~= Map::<u32, HardwareID>::empty());
        pm
    }

    /// Enters `hw` under its coordinates, in place of what stood there.
    pub fn insert(&mut self, hw: HardwareID)
        requires
            old(self).wf(),
        ensures
            final(self).wf(),
            final(self).entries() == old(self).entries().insert(hw.key(), hw),
    {
        let key = make_key(hw.cobo_id, hw.asad_id, hw.aget_id, hw.channel);
        let _ = fx_insert(&mut self.map, key, hw);
    }

    /// Looks up the entry for these coordinates. Coordinates without an
    /// entry are no error: the answer is `None`.
    pub fn get_hardware_id(&self, cobo_id: &u8, asad_id: &u8, aget_id: &u8, channel: &u8) -> (r:
        Option<&HardwareID>)
        ensures
            match r {
                Some(hw) => self.lookup(*cobo_id, *asad_id, *aget_id, *channel) == Some(*hw),
                None => self.lookup(*cobo_id, *asad_id, *aget_id, *channel) is None,
            },
    {
        let key = make_key(*cobo_id, *asad_id, *aget_id, *channel);
        fx_get(&self.map, key)
    }
}

/// The place of the first `b` in `s`, or the length of `s` if it has none.
pub open spec fn first_index(s: Seq<u8>, b: u8) -> int
    decreases s.len(),
{
    if s.len() == 0 {
        0
    } else if s[0] == b {
        0
    } else {
        1 + first_index(s.drop_first(), b)
    }
}

/// The pieces of `s` between its commas.
pub open spec fn split(s: Seq<u8>) -> Seq<Seq<u8>>
    decreases s.len(),
{
    let c = first_index(s, 0x2c);
    if 0 <= c < s.len() {
        seq![s.take(c)] + split(s.skip(c + 1))
    } else {
        seq![s]
    }
}

/// Space, tab, line feed, vertical tab, form feed and carriage return.
pub open spec fn is_whitespace(b: u8) -> bool {
    b == 0x20 || (0x09 <= b <= 0x0d)
}

/// Whether `s` holds white space anywhere.
pub open spec fn has_whitespace(s: Seq<u8>) -> bool {
    exists|i: int| 0 <= i < s.len() && is_whitespace(#[trigger] s[i])
}

/// Whether `b` is a decimal digit.
pub open spec fn is_digit(b: u8) -> bool {
    0x30 <= b <= 0x39
}

/// The number that the digits of `s` spell; a byte that is no digit counts as 0.
pub open spec fn decimal(s: Seq<u8>) -> nat
    decreases s.len(),
{
    if s.len() == 0 {
        0
    } else {
        decimal(s.drop_last()) * 10 + if is_digit(s.last()) {
            (s.last() - 0x30) as nat
        } else {
            0
        }
    }
}

/// The number in a field: the field is not empty, holds digits only, and
/// spells a number of at most `max`.
pub open spec fn number(s: Seq<u8>, max: nat) -> Option<nat> {
    if s.len() > 0 && (forall|i: int| 0 <= i < s.len() ==> is_digit(#[trigger] s[i])) && decimal(s)
        <= max {
        Some(decimal(s))
    } else {
        None
    }
}

/// The record on one line. White space, or a number of fields other than
/// five, is a bad format; a field that is not a number of its width is a
/// parsing error.
pub open spec fn parse_line(line: Seq<u8>) -> Result<HardwareID, PadMapError> {
    let fields = split(line);
    if has_whitespace(line) || fields.len() != 5 {
        Err(PadMapError::BadFileFormat)
    } else {
        match (
            number(fields[0], 255),
            number(fields[1], 255),
            number(fields[2], 255),
            number(fields[3], 255),
            number(fields[4], 65535),
        ) {
            (Some(cobo), Some(asad), Some(aget), Some(channel), Some(pad)) => Ok(
                HardwareID {
                    cobo_id: cobo as u8,
                    asad_id: asad as u8,
                    aget_id: aget as u8,
                    channel: channel as u8,
                    pad_id: pad as u16,
                },
            ),
            _ => Err(PadMapError::ParsingError),
        }
    }
}

/// The records of a text, line by line; the first line that fails gives the
/// error. What follows the last line feed is a line unless it is empty.
pub open spec fn parse_text(text: Seq<u8>) -> Result<Seq<HardwareID>, PadMapError>
    decreases text.len(),
{
    if text.len() == 0 {
        Ok(Seq::empty())
    } else {
        let n = first_index(text, 0x0a);
        let rest = if 0 <= n < text.len() {
            text.skip(n + 1)
        } else {
            Seq::empty()
        };
        match parse_line(text.take(n)) {
            Err(e) => Err(e),
            Ok(hw) => match parse_text(rest) {
                Err(e) => Err(e),
                Ok(more) => Ok(seq![hw] + more),
            },
        }
    }
}

/// The map that holds the records, a later one in place of an earlier one
/// with the same coordinates.
pub open spec fn entries_of(records: Seq<HardwareID>) -> Map<u32, HardwareID>
    decreases records.len(),
{
    if records.len() == 0 {
        Map::empty()
    } else {
        entries_of(records.drop_last()).insert(records.last().key(), records.last())
    }
}

/// The first place at which `b` stands is `first_index`.
pub proof fn lemma_first_index_is(s: Seq<u8>, b: u8, at: int)
    requires
        0 <= at <= s.len(),
        forall|i: int| 0 <= i < at ==> s[i] != b,
        at < s.len() ==> s[at] == b,
    ensures
        first_index(s, b) == at,
    decreases s.len(),
{
    if s.len() > 0 && at > 0 {
        assert(s[0] != b);
        assert forall|i: int| 0 <= i < at - 1 implies s.drop_first()[i] != b by {
            assert(s.drop_first()[i] == s[i + 1]);
        }
        lemma_first_index_is(s.drop_first(), b, at - 1);
    }
}

/// A number does not shrink when digits follow it.
pub proof fn lemma_decimal_prefix(s: Seq<u8>, k: int)
    requires
        0 <= k <= s.len(),
    ensures
        decimal(s.take(k)) <= decimal(s),
    decreases s.len() - k,
{
    if k < s.len() {
        lemma_decimal_prefix(s, k + 1);
        assert(s.take(k + 1).drop_last() =~= s.take(k));
    } else {
        assert(s.take(k) =~= s);
    }
}

/// One more record is entered into the map of the records before it.
pub proof fn lemma_entries_of_push(records: Seq<HardwareID>, hw: HardwareID)
    ensures
        entries_of(records.push(hw)) == entries_of(records).insert(hw.key(), hw),
{
    assert(records.push(hw).drop_last() =~= records);
}

/// Finds the first `b` in `s[from..to]`; `to` if there is none.
fn find_byte(s: &[u8], from: usize, to: usize, b: u8) -> (at: usize)
    requires
        from <= to <= s.len(),
    ensures
        from <= at <= to,
        at - from == first_index(s@.subrange(from as int, to as int), b),
{
    let mut at: usize = from;
    while at < to && s[at] != b
        invariant
            from <= at <= to <= s.len(),
            forall|i: int| from <= i < at ==> s@[i] != b,
        decreases to - at,
    {
        at = at + 1;
    }
    proof {
        lemma_first_index_is(s@.subrange(from as int, to as int), b, at - from);
    }
    at
}

/// Whether `s[from..to]` holds white space.
fn holds_whitespace(s: &[u8], from: usize, to: usize) -> (r: bool)
    requires
        from <= to <= s.len(),
    ensures
        r == has_whitespace(s@.subrange(from as int, to as int)),
{
    let ghost line = s@.subrange(from as int, to as int);
    let mut i: usize = from;
    while i < to
        invariant
            from <= i <= to <= s.len(),
            line == s@.subrange(from as int, to as int),
            forall|j: int| 0 <= j < i - from ==> !is_whitespace(#[trigger] line[j]),
        decreases to - i,
    {
        let b: u8 = s[i];
        if b == 0x20 || (0x09 <= b && b <= 0x0d) {
            assert(is_whitespace(line[i - from]));
            return true;
        }
        i = i + 1;
    }
    false
}

/// Reads the number in `s[from..to]`, if it is one of at most `max`.
fn parse_number(s: &[u8], from: usize, to: usize, max: u32) -> (r: Option<u32>)
    requires
        from <= to <= s.len(),
        max <= 65535,
    ensures
        match r {
            Some(v) => number(s@.subrange(from as int, to as int), max as nat) == Some(v as nat),
            None => number(s@.subrange(from as int, to as int), max as nat) is None,
        },
{
    let ghost field = s@.subrange(from as int, to as int);
    if from == to {
        return None;
    }
    let mut value: u32 = 0;
    let mut i: usize = from;
    assert(field.take(0) =~= Seq::<u8>::empty());
    while i < to
        invariant
            from <= i <= to <= s.len(),
            max <= 65535,
            field == s@.subrange(from as int, to as int),
            forall|j: int| 0 <= j < i - from ==> is_digit(#[trigger] field[j]),
            value == decimal(field.take(i - from)),
            value <= max,
        decreases to - i,
    {
        let b: u8 = s[i];
        if b < 0x30 || b > 0x39 {
            assert(!is_digit(field[i - from]));
            return None;
        }
        assert(field.take(i - from + 1).drop_last() =~= field.take(i - from));
        value = value * 10 + (b - 0x30) as u32;
        if value > max {
            proof {
                lemma_decimal_prefix(field, i - from + 1);
            }
            return None;
        }
        i = i + 1;
    }
    assert(field.take(i - from) =~= field);
    Some(value)
}

/// Finds the pieces of `s[from..to]` between its commas: for each piece the
/// place where it starts and the place where it ends.
fn split_fields(s: &[u8], from: usize, to: usize) -> (bounds: Vec<(usize, usize)>)
    requires
        from <= to <= s.len(),
    ensures
        bounds@.len() == split(s@.subrange(from as int, to as int)).len(),
        forall|k: int|
            0 <= k < bounds@.len() ==> from <= (#[trigger] bounds@[k]).0 <= bounds@[k].1 <= to
                && split(s@.subrange(from as int, to as int))[k] == s@.subrange(
                bounds@[k].0 as int,
                bounds@[k].1 as int,
            ),
{
    let ghost line = s@.subrange(from as int, to as int);
    let ghost mut fields = Seq::<Seq<u8>>::empty();
    let mut bounds: Vec<(usize, usize)> = Vec::new();
    let mut cur: usize = from;
    let mut open: bool = true;
    assert(fields + split(line) =~= split(line));
    while open
        invariant
            from <= cur <= to <= s.len(),
            line == s@.subrange(from as int, to as int),
            open ==> split(line) == fields + split(s@.subrange(cur as int, to as int)),
            !open ==> split(line) == fields,
            bounds@.len() == fields.len(),
            forall|k: int|
                0 <= k < bounds@.len() ==> from <= (#[trigger] bounds@[k]).0 <= bounds@[k].1 <= to
                    && fields[k] == s@.subrange(bounds@[k].0 as int, bounds@[k].1 as int),
        decreases to - cur + if open { 1int } else { 0int },
    {
        let ghost rest = s@.subrange(cur as int, to as int);
        let comma = find_byte(s, cur, to, 0x2c);
        bounds.push((cur, comma));
        proof {
            assert(rest.take(comma - cur) =~= s@.subrange(cur as int, comma as int));
            if comma < to {
                assert(rest.skip(comma - cur + 1) =~= s@.subrange(comma + 1, to as int));
                assert(fields + (seq![rest.take(comma - cur)] + split(
                    rest.skip(comma - cur + 1),
                )) =~= fields.push(rest.take(comma - cur)) + split(rest.skip(comma - cur + 1)));
                fields = fields.push(rest.take(comma - cur));
            } else {
                assert(rest.take(comma - cur) =~= rest);
                assert(fields + seq![rest] =~= fields.push(rest));
                fields = fields.push(rest);
            }
        }
        if comma < to {
            cur = comma + 1;
        } else {
            open = false;
        }
    }
    bounds
}

/// Reads the record in `s[from..to]`.
fn read_line(s: &[u8], from: usize, to: usize) -> (r: Result<HardwareID, PadMapError>)
    requires
        from <= to <= s.len(),
    ensures
        r == parse_line(s@.subrange(from as int, to as int)),
{
    if holds_whitespace(s, from, to) {
        return Err(PadMapError::BadFileFormat);
    }
    let bounds = split_fields(s, from, to);
    if bounds.len() != 5 {
        return Err(PadMapError::BadFileFormat);
    }
    let cobo = parse_number(s, bounds[0].0, bounds[0].1, 255);
    let asad = parse_number(s, bounds[1].0, bounds[1].1, 255);
    let aget = parse_number(s, bounds[2].0, bounds[2].1, 255);
    let channel = parse_number(s, bounds[3].0, bounds[3].1, 255);
    let pad = parse_number(s, bounds[4].0, bounds[4].1, 65535);
    match (cobo, asad, aget, channel, pad) {
        (Some(cobo), Some(asad), Some(aget), Some(channel), Some(pad)) => Ok(
            HardwareID {
                cobo_id: cobo as u8,
                asad_id: asad as u8,
                aget_id: aget as u8,
                channel: channel as u8,
                pad_id: pad as u16,
            },
        ),
        _ => Err(PadMapError::ParsingError),
    }
}

/// The result of reading `rest` after the records `done` were read.
pub open spec fn read_on(done: Seq<HardwareID>, rest: Seq<u8>) -> Result<
    Seq<HardwareID>,
    PadMapError,
> {
    match parse_text(rest) {
        Err(e) => Err(e),
        Ok(more) => Ok(done + more),
    }
}

impl PadMap {
    /// Reads a pad map from its text.
    pub fn from_text(text: &[u8]) -> (r: Result<PadMap, PadMapError>)
        ensures
            match r {
                Ok(pm) => pm.wf() && parse_text(text@) is Ok && pm.entries() == entries_of(
                    parse_text(text@).unwrap(),
                ),
                Err(e) => parse_text(text@) == Err::<Seq<HardwareID>, PadMapError>(e),
            },
    {
        let mut pm = PadMap::empty();
        let ghost done = Seq::<HardwareID>::empty();
        let mut pos: usize = 0;
        assert(text@.skip(0) =~= text@);
        assert(done + parse_text(text@).unwrap() =~= parse_text(text@).unwrap());
        while pos < text.len()
            invariant
                pos <= text.len(),
                pm.wf(),
                pm.entries() == entries_of(done),
                parse_text(text@) == read_on(done, text@.skip(pos as int)),
            decreases text.len() - pos,
        {
            let ghost rest = text@.skip(pos as int);
            let end = find_byte(text, pos, text.len(), 0x0a);
            assert(rest =~= text@.subrange(pos as int, text.len() as int));
            assert(rest.take(end - pos) =~= text@.subrange(pos as int, end as int));
            match read_line(text, pos, end) {
                Err(e) => {
                    return Err(e);
                },
                Ok(hw) => {
                    pm.insert(hw);
                    proof {
                        let next = if end < text.len() {
                            rest.skip(end - pos + 1)
                        } else {
                            Seq::<u8>::empty()
                        };
                        lemma_entries_of_push(done, hw);
                        assert(parse_text(rest) == read_on(seq![hw], next));
                        if end < text.len() {
                            assert(next =~= text@.skip(end + 1));
                        } else {
                            assert(next =~= text@.skip(text.len() as int));
                        }
                        match parse_text(next) {
                            Ok(more) => {
                                assert(done + (seq![hw] + more) =~= done.push(hw) + more);
                            },
                            Err(_) => {},
                        }
                        done = done.push(hw);
                    }
                    pos = if end < text.len() {
                        end + 1
                    } else {
                        end
                    };
                },
            }
        }
        proof {
            assert(text@.skip(pos as int) =~= Seq::<u8>::empty());
            assert(done + Seq::<HardwareID>::empty() =~= done);
        }
        Ok(pm)
    }
}

} // verus!

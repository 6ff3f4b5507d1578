//! Inspecting a column: which of its entries are looked at, and what is reported of them.
use crate::database_manager::{InspectConfig, InspectTarget};
use crate::strings;
use crate::strings::{decimal_string, hex_encode};
use vstd::prelude::*;
use vstd::string::*;

verus! {

/// The number of entries that can be counted.
pub const MAX_KEYS: u32 = 0x7fff_ffff;

/// What the inspection does with the next entry of the column.
#[derive(Clone, Copy, PartialEq, Eq, Structural, Debug)]
pub enum Move {
    /// Passes over it.
    Skip,
    /// Looks at it.
    Take,
    /// Does not ask for it.
    Stop,
}

/// What is reported of an entry.
pub enum EntryReport {
    /// A line is printed.
    Line(String),
    /// The value is written to a file of this name in the output directory.
    File(String),
    /// Nothing.
    Silent,
}

/// What is reported of an entry, the text taken as characters.
pub enum ReportView {
    Line(Seq<char>),
    File(Seq<char>),
    Silent,
}

impl View for EntryReport {
    type V = ReportView;

    open spec fn view(&self) -> ReportView {
        match *self {
            EntryReport::Line(text) => ReportView::Line(text@),
            EntryReport::File(name) => ReportView::File(name@),
            EntryReport::Silent => ReportView::Silent,
        }
    }
}

/// The number whose big endian bytes are `bytes`.
pub open spec fn be_value(bytes: Seq<u8>) -> nat
    decreases bytes.len(),
{
    if bytes.len() == 0 {
        0
    } else {
        256 * be_value(bytes.drop_last()) + bytes.last() as nat
    }
}

/// The number in the last eight bytes of a key.
pub open spec fn numeric_key(key: Seq<u8>) -> nat {
    be_value(key.subrange(key.len() - 8, key.len() as int))
}

proof fn lemma_numeric_key(key: Seq<u8>)
    requires
        key.len() >= 8,
    ensures
        ({
            let s = key.len() - 8;
            numeric_key(key) == ((((((key[s] * 256 + key[s + 1]) * 256 + key[s + 2]) * 256 + key[s + 3])
                * 256 + key[s + 4]) * 256 + key[s + 5]) * 256 + key[s + 6]) * 256 + key[s + 7]
        }),
        numeric_key(key) <= u64::MAX,
{
    let start = key.len() - 8;
    let tail = key.subrange(start, key.len() as int);
    reveal_with_fuel(be_value, 9);
    assert(tail.take(8) =~= tail);
    assert forall|n: int| 1 <= n <= 8 implies (#[trigger] tail.take(n)).drop_last() =~= tail.take(n - 1)
        && tail.take(n).last() == key[start + n - 1] by {}
    assert(tail.take(7).drop_last() == tail.take(6));
    assert(tail.take(6).drop_last() == tail.take(5));
    assert(tail.take(5).drop_last() == tail.take(4));
    assert(tail.take(4).drop_last() == tail.take(3));
    assert(tail.take(3).drop_last() == tail.take(2));
    assert(tail.take(2).drop_last() == tail.take(1));
    assert(tail.take(1).drop_last() == tail.take(0));
}

fn read_numeric_key(key: &Vec<u8>) -> (r: u64)
    requires
        key@.len() >= 8,
    ensures
        r == numeric_key(key@),
{
    proof {
        lemma_numeric_key(key@);
    }
    let start: usize = key.len() - 8;
    let n1: u64 = key[start] as u64;
    let n2: u64 = n1 * 256 + key[start + 1] as u64;
    let n3: u64 = n2 * 256 + key[start + 2] as u64;
    let n4: u64 = n3 * 256 + key[start + 3] as u64;
    let n5: u64 = n4 * 256 + key[start + 4] as u64;
    let n6: u64 = n5 * 256 + key[start + 5] as u64;
    let n7: u64 = n6 * 256 + key[start + 6] as u64;
    n7 * 256 + key[start + 7] as u64
}

/// An inspection in progress.
pub struct Inspector {
    pub column: String,
    pub target: InspectTarget,
    pub skip: usize,
    pub limit: usize,
    /// The number of entries passed over.
    pub skipped: usize,
    /// The number of entries looked at.
    pub num_keys: u32,
    /// The number of bytes of their values.
    pub total: usize,
    /// The number in the key of the last entry looked at.
    pub prev_key: u64,
    pub found_gaps: bool,
}

/// What is reported of an entry with this key and value length, at this state of the inspection.
pub open spec fn report_for(
    target: InspectTarget,
    column: Seq<char>,
    prev_key: nat,
    num_keys: nat,
    key: Seq<u8>,
    value_len: nat,
) -> ReportView {
    match target {
        InspectTarget::ValueSizes => ReportView::Line(
            strings::hex_text(key) + ": "@ + strings::decimal(value_len) + " bytes"@,
        ),
        InspectTarget::ValueTotal => ReportView::Silent,
        InspectTarget::Values => ReportView::File(
            column + "_"@ + strings::hex_text(key) + ".ssz"@,
        ),
        InspectTarget::Gaps => if numeric_key(key) > prev_key + 1 {
            ReportView::Line(
                "gap between keys "@ + strings::decimal(prev_key) + " and "@ + strings::decimal(
                    numeric_key(key),
                ) + " (offset: "@ + strings::decimal(num_keys) + ")"@,
            )
        } else {
            ReportView::Silent
        },
    }
}

impl Inspector {
    /// The state of the inspection once it has looked at an entry.
    pub open spec fn after_entry(self, key: Seq<u8>, value_len: nat) -> Inspector {
        Inspector {
            num_keys: (self.num_keys + 1) as u32,
            total: (self.total + value_len) as usize,
            prev_key: if self.target is Gaps {
                numeric_key(key) as u64
            } else {
                self.prev_key
            },
            found_gaps: self.found_gaps || (self.target is Gaps && numeric_key(key) > self.prev_key
                + 1),
            ..self
        }
    }

    /// The state of the inspection once it has looked at some entries.
    pub open spec fn after_entries(self, entries: Seq<(Seq<u8>, nat)>) -> Inspector
        decreases entries.len(),
    {
        if entries.len() == 0 {
            self
        } else {
            self.after_entries(entries.drop_last()).after_entry(entries.last().0, entries.last().1)
        }
    }

    /// Starts the inspection: without a number nothing is passed over, without a limit all entries
    /// are looked at.
    pub fn new(config: &InspectConfig) -> (r: Self)
        ensures
            r.column@ == config.column@,
            r.target == config.target,
            r.skip == (match config.skip {
                Some(n) => n,
                None => 0,
            }),
            r.limit == (match config.limit {
                Some(n) => n,
                None => usize::MAX,
            }),
            r.skipped == 0,
            r.num_keys == 0,
            r.total == 0,
            r.prev_key == 0,
            !r.found_gaps,
    {
        Inspector {
            column: config.column.clone(),
            target: config.target,
            skip: match config.skip {
                Some(n) => n,
                None => 0,
            },
            limit: match config.limit {
                Some(n) => n,
                None => usize::MAX,
            },
            skipped: 0,
            num_keys: 0,
            total: 0,
            prev_key: 0,
            found_gaps: false,
        }
    }

    /// What is done with the next entry.
    pub fn next_move(&self) -> (r: Move)
        ensures
            r == (if self.num_keys >= self.limit {
                Move::Stop
            } else if self.skipped < self.skip {
                Move::Skip
            } else {
                Move::Take
            }),
    {
        if self.num_keys as usize >= self.limit {
            Move::Stop
        } else if self.skipped < self.skip {
            Move::Skip
        } else {
            Move::Take
        }
    }

    /// Passes over an entry.
    pub fn skip_entry(&mut self)
        requires
            old(self).skipped < old(self).skip,
        ensures
            *final(self) == (Inspector { skipped: (old(self).skipped + 1) as usize, ..*old(self) }),
    {
        self.skipped += 1;
    }

    /// Looks at an entry. The counts have to have room for it. Where gaps are looked for, the key has
    /// to have at least eight bytes, and no key follows the largest one.
    pub fn inspect_entry(&mut self, key: &Vec<u8>, value_len: usize) -> (r: EntryReport)
        requires
            old(self).num_keys < MAX_KEYS,
            old(self).total + value_len <= usize::MAX,
            old(self).target is Gaps ==> key@.len() >= 8 && old(self).prev_key < u64::MAX,
        ensures
            r@ == report_for(
                old(self).target,
                old(self).column@,
                old(self).prev_key as nat,
                old(self).num_keys as nat,
                key@,
                value_len as nat,
            ),
            *final(self) == old(self).after_entry(key@, value_len as nat),
    {
        let report = match self.target {
            InspectTarget::ValueSizes => {
                let mut line = hex_encode(key.as_slice());
                line.append(": ");
                line.append(decimal_string(value_len as u128).as_str());
                line.append(" bytes");
                EntryReport::Line(line)
            },
            InspectTarget::Gaps => {
                let numeric_key: u64 = read_numeric_key(key);
                let report = if numeric_key > self.prev_key + 1 {
                    let mut line = "gap between keys ".to_owned();
                    line.append(decimal_string(self.prev_key as u128).as_str());
                    line.append(" and ");
                    line.append(decimal_string(numeric_key as u128).as_str());
                    line.append(" (offset: ");
                    line.append(decimal_string(self.num_keys as u128).as_str());
                    line.append(")");
                    self.found_gaps = true;
                    EntryReport::Line(line)
                } else {
                    EntryReport::Silent
                };
                self.prev_key = numeric_key;
                report
            },
            InspectTarget::ValueTotal => EntryReport::Silent,
            InspectTarget::Values => {
                let mut name = self.column.clone();
                name.append("_");
                name.append(hex_encode(key.as_slice()).as_str());
                name.append(".ssz");
                EntryReport::File(name)
            },
        };
        self.total += value_len;
        self.num_keys += 1;
        report
    }

    /// The lines that end the inspection.
    pub fn finish(&self) -> (r: Vec<String>)
        ensures
            ({
                let counts = seq![
                    "Num keys: "@ + strings::decimal(self.num_keys as nat),
                    "Total: "@ + strings::decimal(self.total as nat) + " bytes"@,
                ];
                r@.map_values(|line: String| line@) == (if self.target is Gaps && !self.found_gaps {
                    seq!["No gaps found!"@] + counts
                } else {
                    counts
                })
            }),
    {
        let mut lines: Vec<String> = Vec::new();
        if matches!(self.target, InspectTarget::Gaps) && !self.found_gaps {
            lines.push("No gaps found!".to_owned());
        }
        let mut keys = "Num keys: ".to_owned();
        keys.append(decimal_string(self.num_keys as u128).as_str());
        lines.push(keys);
        let mut total = "Total: ".to_owned();
        total.append(decimal_string(self.total as u128).as_str());
        total.append(" bytes");
        lines.push(total);
        proof {
            let counts = seq![
                "Num keys: "@ + strings::decimal(self.num_keys as nat),
                "Total: "@ + strings::decimal(self.total as nat) + " bytes"@,
            ];
            if self.target is Gaps && !self.found_gaps {
                assert(lines@.map_values(|line: String| line@) =~= seq!["No gaps found!"@] + counts);
            } else {
                assert(lines@.map_values(|line: String| line@) =~= counts);
            }
        }
        lines
    }
}

/// The number of bytes of the values of some entries.
pub open spec fn total_len(entries: Seq<(Seq<u8>, nat)>) -> nat
    decreases entries.len(),
{
    if entries.len() == 0 {
        0
    } else {
        total_len(entries.drop_last()) + entries.last().1
    }
}

/// The inspection counts every entry it looks at and every byte of its value.
pub proof fn law_every_entry_is_counted(start: Inspector, entries: Seq<(Seq<u8>, nat)>)
    requires
        start.num_keys + entries.len() <= MAX_KEYS,
        start.total + total_len(entries) <= usize::MAX,
    ensures
        start.after_entries(entries).num_keys == start.num_keys + entries.len(),
        start.after_entries(entries).total == start.total + total_len(entries),
        start.after_entries(entries).target == start.target,
        start.after_entries(entries).column == start.column,
    decreases entries.len(),
{
    if entries.len() > 0 {
        law_every_entry_is_counted(start, entries.drop_last());
    }
}

/// Whether entry `i` is more than one above the entry before it, or above `prev_key` where it is the
/// first.
pub open spec fn gap_before(prev_key: u64, entries: Seq<(Seq<u8>, nat)>, i: int) -> bool {
    numeric_key(entries[i].0) > (if i == 0 {
        prev_key as nat
    } else {
        numeric_key(entries[i - 1].0)
    }) + 1
}

/// A search for gaps finds one exactly where the number of some key is more than one above the number
/// of the key before it.
pub proof fn law_gaps_are_found(start: Inspector, entries: Seq<(Seq<u8>, nat)>)
    requires
        start.target is Gaps,
        forall|i: int| 0 <= i < entries.len() ==> (#[trigger] entries[i]).0.len() >= 8,
    ensures
        start.after_entries(entries).found_gaps <==> start.found_gaps || exists|i: int|
            0 <= i < entries.len() && #[trigger] gap_before(start.prev_key, entries, i),
        start.after_entries(entries).prev_key == (if entries.len() == 0 {
            start.prev_key as nat
        } else {
            numeric_key(entries.last().0)
        }),
        start.after_entries(entries).target is Gaps,
    decreases entries.len(),
{
    if entries.len() > 0 {
        let short = entries.drop_last();
        let n = short.len() as int;
        assert forall|i: int| 0 <= i < short.len() implies (#[trigger] short[i]).0.len() >= 8 by {
            assert(short[i] == entries[i]);
        }
        law_gaps_are_found(start, short);
        lemma_numeric_key(entries[n].0);
        assert forall|i: int| 0 <= i < n implies #[trigger] gap_before(start.prev_key, entries, i)
            == gap_before(start.prev_key, short, i) by {
            assert(short[i] == entries[i]);
            if i > 0 {
                assert(short[i - 1] == entries[i - 1]);
            }
        }
        if n > 0 {
            assert(short.last() == entries[n - 1]);
        }
        let before = start.after_entries(short);
        assert(numeric_key(entries[n].0) > before.prev_key + 1 <==> gap_before(
            start.prev_key,
            entries,
            n,
        ));
        if start.after_entries(entries).found_gaps && !start.found_gaps {
            if before.found_gaps {
                let i = choose|i: int|
                    0 <= i < short.len() && #[trigger] gap_before(start.prev_key, short, i);
                assert(gap_before(start.prev_key, entries, i));
            } else {
                assert(gap_before(start.prev_key, entries, n));
            }
        }
        if exists|i: int| 0 <= i < entries.len() && #[trigger] gap_before(start.prev_key, entries, i) {
            let i = choose|i: int|
                0 <= i < entries.len() && #[trigger] gap_before(start.prev_key, entries, i);
            if i < n {
                assert(gap_before(start.prev_key, short, i));
            }
        }
    }
}

/// The number of a key is that of its last eight bytes, the most significant first.
pub proof fn law_numeric_key_is_big_endian(key: Seq<u8>)
    requires
        key.len() >= 8,
    ensures
        ({
            let s = key.len() - 8;
            numeric_key(key) == key[s] * 0x100000000000000 + key[s + 1] * 0x1000000000000 + key[s + 2]
                * 0x10000000000 + key[s + 3] * 0x100000000 + key[s + 4] * 0x1000000 + key[s + 5] * 0x10000
                + key[s + 6] * 0x100 + key[s + 7]
        }),
{
    lemma_numeric_key(key);
}

/// What is reported of an entry: its size in a line, its value in a file, or, where gaps are looked
/// for, a line exactly where its number is more than one above that of the entry before. A total alone
/// reports nothing of single entries.
pub proof fn law_entries_are_reported(
    target: InspectTarget,
    column: Seq<char>,
    prev_key: nat,
    num_keys: nat,
    key: Seq<u8>,
    value_len: nat,
)
    ensures
        ({
            let report = report_for(target, column, prev_key, num_keys, key, value_len);
            &&& target is ValueSizes ==> (report matches ReportView::Line(text)
                && strings::hex_text(key).is_prefix_of(text))
            &&& target is Values ==> (report matches ReportView::File(name) && column.is_prefix_of(name))
            &&& target is ValueTotal ==> report is Silent
            &&& target is Gaps ==> (report is Line <==> numeric_key(key) > prev_key + 1) && (
            report is Silent <==> numeric_key(key) <= prev_key + 1)
        }),
{
}

} // verus!

//! Per-instrument extraction: find a requested instrument inside the
//! ticker snapshot and compute its report.
//!
//! One deliberate oddity of the gateway is kept here faithfully: when the
//! requested identifier is absent from the snapshot, the extractor does not
//! fail but reads the snapshot's first record instead, while still labelling
//! the report with the requested identifier.

use vstd::prelude::*;

use crate::decimal::change_hundredths;
use crate::decimal::change_hundredths_i128;
use crate::decimal::dec_canon_of;
use crate::decimal::dec_fits;
use crate::decimal::dec_lt;
use crate::decimal::dec_num;
use crate::decimal::dec_scale;
use crate::decimal::format_dec;
use crate::decimal::format_hundredths;
use crate::decimal::hundredths_str;
use crate::decimal::parse_dec;
use crate::decimal::val_lt;

verus! {

/// One record of the upstream snapshot, reduced to the fields the gateway
/// reads: the instrument identifier and the two price strings.
pub struct TickerRecord {
    pub inst_id: String,
    pub open24h: String,
    pub last: String,
}

pub ghost struct RecordV {
    pub inst_id: Seq<char>,
    pub open24h: Seq<char>,
    pub last: Seq<char>,
}

impl View for TickerRecord {
    type V = RecordV;

    open spec fn view(&self) -> RecordV {
        RecordV { inst_id: self.inst_id@, open24h: self.open24h@, last: self.last@ }
    }
}

impl DeepView for TickerRecord {
    type V = RecordV;

    open spec fn deep_view(&self) -> RecordV {
        self.view()
    }
}

/// The per-instrument report served to the client.
pub struct SymbolData {
    pub symbol: String,
    pub pair: String,
    pub price: String,
    pub dir: String,
    pub change: String,
}

pub ghost struct ReportV {
    pub symbol: Seq<char>,
    pub pair: Seq<char>,
    pub price: Seq<char>,
    pub dir: Seq<char>,
    pub change: Seq<char>,
}

impl View for SymbolData {
    type V = ReportV;

    open spec fn view(&self) -> ReportV {
        ReportV {
            symbol: self.symbol@,
            pair: self.pair@,
            price: self.price@,
            dir: self.dir@,
            change: self.change@,
        }
    }
}

impl DeepView for SymbolData {
    type V = ReportV;

    open spec fn deep_view(&self) -> ReportV {
        self.view()
    }
}

#[derive(Clone, Copy, PartialEq, Eq, Structural, Debug)]
pub enum ExtractError {
    /// The requested identifier does not split into two non-empty parts.
    MalformedInstrumentId,
    /// The record's price fields are unusable: absent, outside the decimal
    /// grammar, too long for exact arithmetic, or a zero 24h open.
    InvalidPriceData,
}

/// `s` split on `sep`, Rust style: empty input gives one empty part, and a
/// separator at either end gives an empty part there.
pub open spec fn split_seq(s: Seq<char>, sep: char) -> Seq<Seq<char>>
    decreases s.len(),
{
    if s.len() == 0 {
        seq![Seq::<char>::empty()]
    } else if s[0] == sep {
        seq![Seq::<char>::empty()] + split_seq(s.drop_first(), sep)
    } else {
        let r = split_seq(s.drop_first(), sep);
        seq![seq![s[0]] + r[0]] + r.drop_first()
    }
}

pub open spec fn no_sep(t: Seq<char>, sep: char) -> bool {
    forall|i: int| 0 <= i < t.len() ==> t[i] != sep
}

/// A separator-free string splits into itself alone.
pub proof fn lemma_split_whole(t: Seq<char>, sep: char)
    requires
        no_sep(t, sep),
    ensures
        split_seq(t, sep) =~~= seq![t],
    decreases t.len(),
{
    if t.len() == 0 {
        assert(t =~= Seq::<char>::empty());
    } else {
        assert(t[0] != sep);
        assert(no_sep(t.drop_first(), sep)) by {
            assert(forall|i: int|
                0 <= i < t.drop_first().len() ==> #[trigger] t.drop_first()[i] == t[i + 1]);
        }
        lemma_split_whole(t.drop_first(), sep);
        let r = split_seq(t.drop_first(), sep);
        assert(r[0] == t.drop_first());
        assert(seq![t[0]] + t.drop_first() =~= t);
        assert(r.drop_first() =~= Seq::<Seq<char>>::empty());
    }
}

/// Splitting at the first separator: the part before it, then the split of
/// what follows.
pub proof fn lemma_split_step(t: Seq<char>, u: Seq<char>, sep: char)
    requires
        no_sep(t, sep),
    ensures
        split_seq(t + seq![sep] + u, sep) =~~= seq![t] + split_seq(u, sep),
    decreases t.len(),
{
    let s = t + seq![sep] + u;
    if t.len() == 0 {
        assert(s[0] == sep);
        assert(s.drop_first() =~= u);
    } else {
        assert(s[0] == t[0]);
        assert(t[0] != sep);
        assert(no_sep(t.drop_first(), sep)) by {
            assert(forall|i: int|
                0 <= i < t.drop_first().len() ==> #[trigger] t.drop_first()[i] == t[i + 1]);
        }
        lemma_split_step(t.drop_first(), u, sep);
        assert(s.drop_first() =~= t.drop_first() + seq![sep] + u);
        let r = split_seq(s.drop_first(), sep);
        assert(r =~~= seq![t.drop_first()] + split_seq(u, sep));
        assert(r[0] == t.drop_first());
        assert(seq![s[0]] + r[0] =~= t);
        assert(r.drop_first() =~= split_seq(u, sep));
    }
}

/// Split a string on a separator character, as `str::split` does.
pub fn split_str(s: &str, sep: char) -> (r: Vec<String>)
    ensures
        r.deep_view() == split_seq(s@, sep),
{
    let n = s.unicode_len();
    let mut acc: Vec<String> = Vec::new();
    let mut start: usize = 0;
    let mut i: usize = 0;
    proof {
        assert(s@.subrange(0, n as int) =~= s@);
        assert(acc.deep_view() =~= Seq::<Seq<char>>::empty());
        assert(acc.deep_view() + split_seq(s@.subrange(0, n as int), sep) =~~= split_seq(s@, sep));
    }
    while i < n
        invariant
            0 <= start <= i <= n,
            n == s@.len(),
            no_sep(s@.subrange(start as int, i as int), sep),
            split_seq(s@, sep) == acc.deep_view() + split_seq(
                s@.subrange(start as int, n as int),
                sep,
            ),
        decreases n - i,
    {
        let c = s.get_char(i);
        if c == sep {
            let part = s.substring_char(start, i);
            let ghost t = s@.subrange(start as int, i as int);
            let ghost u = s@.subrange(i + 1, n as int);
            let ghost old_dv = acc.deep_view();
            proof {
                assert(s@.subrange(start as int, n as int) =~= t + seq![sep] + u);
                lemma_split_step(t, u, sep);
            }
            acc.push(String::from_str(part));
            proof {
                assert(acc.deep_view() =~= old_dv.push(t));
                assert(old_dv.push(t) =~= old_dv + seq![t]);
                assert(old_dv + (seq![t] + split_seq(u, sep)) =~~= (old_dv + seq![t]) + split_seq(
                    u,
                    sep,
                ));
                assert(split_seq(s@, sep) == acc.deep_view() + split_seq(u, sep));
            }
            start = i + 1;
            proof {
                assert(s@.subrange(start as int, i + 1 - 1 + 1) =~= Seq::<char>::empty());
            }
        } else {
            proof {
                let t2 = s@.subrange(start as int, i + 1);
                assert(t2 =~= s@.subrange(start as int, i as int).push(c));
                assert(forall|j: int| 0 <= j < t2.len() - 1 ==> t2[j] == s@.subrange(
                    start as int,
                    i as int,
                )[j]);
                assert(no_sep(t2, sep));
            }
        }
        i = i + 1;
    }
    let part = s.substring_char(start, n);
    let ghost t = s@.subrange(start as int, n as int);
    let ghost old_dv = acc.deep_view();
    proof {
        lemma_split_whole(t, sep);
    }
    acc.push(String::from_str(part));
    proof {
        assert(acc.deep_view() =~= old_dv.push(t));
        assert(old_dv.push(t) =~= old_dv + seq![t]);
        assert(split_seq(t, sep) == seq![t]);
        assert(acc.deep_view() == split_seq(s@, sep));
    }
    acc
}

pub open spec fn count_nonempty(ps: Seq<Seq<char>>) -> nat
    decreases ps.len(),
{
    if ps.len() == 0 {
        0
    } else {
        count_nonempty(ps.drop_last()) + (if ps.last().len() > 0 {
            1nat
        } else {
            0nat
        })
    }
}

pub proof fn lemma_count_nonempty_le(ps: Seq<Seq<char>>)
    ensures
        count_nonempty(ps) <= ps.len(),
    decreases ps.len(),
{
    if ps.len() > 0 {
        lemma_count_nonempty_le(ps.drop_last());
    }
}

/// Count the parts that are non-empty strings.
pub fn count_nonempty_parts(ps: &Vec<String>) -> (r: usize)
    ensures
        r == count_nonempty(ps.deep_view()),
{
    let mut r: usize = 0;
    let mut i: usize = 0;
    while i < ps.len()
        invariant
            0 <= i <= ps.len(),
            r <= i,
            r == count_nonempty(ps.deep_view().subrange(0, i as int)),
        decreases ps.len() - i,
    {
        let ghost p = ps.deep_view().subrange(0, i as int);
        proof {
            let p2 = ps.deep_view().subrange(0, i + 1);
            assert(p2.drop_last() =~= p);
            assert(p2.last() == ps.deep_view()[i as int]);
        }
        if !ps[i].as_str().is_empty() {
            r = r + 1;
        }
        i = i + 1;
    }
    proof {
        assert(ps.deep_view().subrange(0, ps.len() as int) =~= ps.deep_view());
    }
    r
}

pub open spec fn matches_at(snap: Seq<RecordV>, id: Seq<char>, i: int) -> bool {
    0 <= i < snap.len() && snap[i].inst_id == id
}

pub open spec fn has_id(snap: Seq<RecordV>, id: Seq<char>) -> bool {
    exists|i: int| matches_at(snap, id, i)
}

pub open spec fn first_match(snap: Seq<RecordV>, id: Seq<char>) -> int
    decreases snap.len(),
{
    if snap.len() == 0 {
        0
    } else if snap[0].inst_id == id {
        0
    } else {
        1 + first_match(snap.drop_first(), id)
    }
}

/// The record index the extractor reads: the first match, or index 0 as the
/// fallback when the identifier is absent.
pub open spec fn sel_index(snap: Seq<RecordV>, id: Seq<char>) -> int {
    if has_id(snap, id) {
        first_match(snap, id)
    } else {
        0
    }
}

pub proof fn lemma_first_match(snap: Seq<RecordV>, id: Seq<char>)
    ensures
        0 <= first_match(snap, id) <= snap.len(),
        has_id(snap, id) <==> first_match(snap, id) < snap.len(),
        first_match(snap, id) < snap.len() ==> snap[first_match(snap, id)].inst_id == id,
        forall|j: int| 0 <= j < first_match(snap, id) ==> snap[j].inst_id != id,
    decreases snap.len(),
{
    if snap.len() == 0 {
    } else if snap[0].inst_id == id {
        assert(matches_at(snap, id, 0));
    } else {
        let tail = snap.drop_first();
        lemma_first_match(tail, id);
        assert(forall|j: int| 0 <= j < tail.len() ==> #[trigger] tail[j] == snap[j + 1]);
        if has_id(tail, id) {
            let i = choose|i: int| matches_at(tail, id, i);
            assert(matches_at(snap, id, i + 1));
        }
        if has_id(snap, id) {
            let i = choose|i: int| matches_at(snap, id, i);
            assert(i != 0);
            assert(matches_at(tail, id, i - 1));
        }
        assert forall|j: int| 0 <= j < first_match(snap, id) implies snap[j].inst_id != id by {
            if j >= 1 {
                assert(tail[j - 1] == snap[j]);
                assert(tail[j - 1].inst_id != id);
            }
        }
    }
}

/// One record read into a report: the price fields parsed, the direction
/// and change computed, the labels taken from the requested identifier's
/// parts.
pub open spec fn record_report(rec: RecordV, parts: Seq<Seq<char>>) -> Result<
    ReportV,
    ExtractError,
> {
    if !dec_fits(rec.open24h) || !dec_fits(rec.last) {
        Err(ExtractError::InvalidPriceData)
    } else if dec_num(rec.open24h) == 0 {
        Err(ExtractError::InvalidPriceData)
    } else {
        Ok(
            ReportV {
                symbol: parts[0],
                pair: parts[1],
                price: dec_canon_of(rec.last),
                dir: if val_lt(
                    dec_num(rec.last),
                    dec_scale(rec.last),
                    dec_num(rec.open24h),
                    dec_scale(rec.open24h),
                ) {
                    "⬇"@
                } else {
                    "⬆"@
                },
                change: hundredths_str(
                    change_hundredths(
                        dec_num(rec.last),
                        dec_scale(rec.last),
                        dec_num(rec.open24h),
                        dec_scale(rec.open24h),
                    ),
                ),
            },
        )
    }
}

/// What `SymbolData::build` returns on every input.
pub open spec fn extract_spec(snap: Seq<RecordV>, id: Seq<char>) -> Result<
    ReportV,
    ExtractError,
> {
    let parts = split_seq(id, '-');
    if count_nonempty(parts) < 2 {
        Err(ExtractError::MalformedInstrumentId)
    } else if snap.len() == 0 {
        Err(ExtractError::InvalidPriceData)
    } else {
        record_report(snap[sel_index(snap, id)], parts)
    }
}

pub open spec fn report_result_view(r: Result<SymbolData, ExtractError>) -> Result<
    ReportV,
    ExtractError,
> {
    match r {
        Ok(d) => Ok(d@),
        Err(e) => Err(e),
    }
}

impl SymbolData {
    /// Locate `tick` in the snapshot — falling back to the first record
    /// when it is absent — parse the record's prices and compute the
    /// report's derived fields.
    pub fn build(snapshot: &Vec<TickerRecord>, tick: String) -> (r: Result<
        SymbolData,
        ExtractError,
    >)
        ensures
            report_result_view(r) == extract_spec(snapshot.deep_view(), tick@),
    {
        let ghost snap = snapshot.deep_view();
        let parts = split_str(tick.as_str(), '-');
        let ne = count_nonempty_parts(&parts);
        if ne < 2 {
            return Err(ExtractError::MalformedInstrumentId);
        }
        if snapshot.len() == 0 {
            return Err(ExtractError::InvalidPriceData);
        }
        proof {
            lemma_count_nonempty_le(parts.deep_view());
        }
        let n = snapshot.len();
        let mut j: usize = 0;
        let mut idx: usize = 0;
        let mut found: bool = false;
        while j < n
            invariant
                0 <= j <= n,
                n == snap.len(),
                snap == snapshot.deep_view(),
                !found ==> forall|k: int| 0 <= k < j ==> snap[k].inst_id != tick@,
                found ==> matches_at(snap, tick@, idx as int),
                found ==> forall|k: int| 0 <= k < idx ==> snap[k].inst_id != tick@,
            decreases n - j,
        {
            proof {
                assert(snap[j as int] == snapshot@[j as int].deep_view());
            }
            if !found && snapshot[j].inst_id == tick {
                idx = j;
                found = true;
            }
            j = j + 1;
        }
        let use_idx: usize = if found {
            idx
        } else {
            0
        };
        proof {
            lemma_first_match(snap, tick@);
            if found {
                assert(has_id(snap, tick@));
                let fm = first_match(snap, tick@);
                assert(fm <= idx);
                assert(!(fm < idx)) by {
                    if fm < idx {
                        assert(snap[fm].inst_id == tick@);
                    }
                }
                assert(sel_index(snap, tick@) == idx as int);
            } else {
                assert(!has_id(snap, tick@)) by {
                    if has_id(snap, tick@) {
                        let i = choose|i: int| matches_at(snap, tick@, i);
                        assert(snap[i].inst_id != tick@);
                    }
                }
                assert(sel_index(snap, tick@) == 0);
            }
            assert(snap[use_idx as int] == snapshot@[use_idx as int].deep_view());
        }
        let rec = &snapshot[use_idx];
        let open = parse_dec(rec.open24h.as_str());
        let last = parse_dec(rec.last.as_str());
        match (open, last) {
            (Some(o), Some(l)) => {
                if o.mant == 0 {
                    assert(dec_num(rec.open24h@) == 0);
                    Err(ExtractError::InvalidPriceData)
                } else {
                    assert(dec_num(rec.open24h@) != 0);
                    let down = dec_lt(&l, &o);
                    let dir = if down {
                        "⬇"
                    } else {
                        "⬆"
                    };
                    let hund = change_hundredths_i128(&l, &o);
                    let change = format_hundredths(hund);
                    let price = format_dec(&l);
                    let d = SymbolData {
                        symbol: parts[0].clone(),
                        pair: parts[1].clone(),
                        price,
                        dir: String::from_str(dir),
                        change,
                    };
                    proof {
                        let want = extract_spec(snap, tick@);
                        assert(parts.deep_view()[0] == parts@[0].deep_view());
                        assert(parts.deep_view()[1] == parts@[1].deep_view());
                        assert(d@ == want->Ok_0);
                    }
                    Ok(d)
                }
            },
            _ => Err(ExtractError::InvalidPriceData),
        }
    }
}

} // verus!

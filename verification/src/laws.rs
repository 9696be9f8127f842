//! The guarantees of the extractor and of the response assembly, stated
//! once, in one place, over the same spec functions the executable
//! contracts use.

use vstd::prelude::*;

use crate::decimal::change_hundredths;
use crate::decimal::dec_num;
use crate::decimal::dec_scale;
use crate::decimal::hundredths_str;
use crate::decimal::val_lt;
use crate::extract::ExtractError;
use crate::extract::RecordV;
use crate::extract::count_nonempty;
use crate::extract::extract_spec;
use crate::extract::has_id;
use crate::extract::lemma_first_match;
use crate::extract::record_report;
use crate::extract::sel_index;
use crate::extract::split_seq;
use crate::handler::body_of;
use crate::handler::price_response_spec;
use crate::handler::report_line;

verus! {

/// Every successful report is labelled from the requested identifier: its
/// symbol and pair are the identifier's first two `-`-separated parts,
/// whether or not the identifier was found in the snapshot.
pub proof fn lemma_report_labels(snap: Seq<RecordV>, id: Seq<char>)
    ensures
        extract_spec(snap, id) matches Ok(r) ==> r.symbol == split_seq(id, '-')[0] && r.pair
            == split_seq(id, '-')[1],
{
}

/// An identifier present in the snapshot is read from its first matching
/// record; no earlier record carries it.
pub proof fn lemma_present_id_uses_first_match(snap: Seq<RecordV>, id: Seq<char>)
    requires
        has_id(snap, id),
    ensures
        0 <= sel_index(snap, id) < snap.len(),
        snap[sel_index(snap, id)].inst_id == id,
        forall|j: int| 0 <= j < sel_index(snap, id) ==> snap[j].inst_id != id,
{
    lemma_first_match(snap, id);
}

/// An identifier absent from the snapshot does not fail the extraction: the
/// snapshot's first record is read in its place, still labelled with the
/// requested identifier.
pub proof fn lemma_absent_id_uses_first_record(snap: Seq<RecordV>, id: Seq<char>)
    requires
        !has_id(snap, id),
        snap.len() > 0,
        count_nonempty(split_seq(id, '-')) >= 2,
    ensures
        sel_index(snap, id) == 0,
        extract_spec(snap, id) == record_report(snap[0], split_seq(id, '-')),
{
}

/// The direction is `⬇` exactly when the last price is below the 24h open,
/// and `⬆` otherwise — equality included.
pub proof fn lemma_direction(snap: Seq<RecordV>, id: Seq<char>)
    ensures
        extract_spec(snap, id) matches Ok(r) ==> {
            let rec = snap[sel_index(snap, id)];
            let below = val_lt(
                dec_num(rec.last),
                dec_scale(rec.last),
                dec_num(rec.open24h),
                dec_scale(rec.open24h),
            );
            (r.dir == "⬇"@ <==> below) && (r.dir == "⬆"@ <==> !below)
        },
{
    reveal_strlit("⬇");
    reveal_strlit("⬆");
    assert("⬇"@[0] != "⬆"@[0]);
}

/// The change column is the percentage change from the 24h open to the last
/// price with the gateway's 101.00 multiplier, rounded to two places and
/// printed with two digits behind the point.
pub proof fn lemma_change_formula(snap: Seq<RecordV>, id: Seq<char>)
    ensures
        extract_spec(snap, id) matches Ok(r) ==> {
            let rec = snap[sel_index(snap, id)];
            r.change == hundredths_str(
                change_hundredths(
                    dec_num(rec.last),
                    dec_scale(rec.last),
                    dec_num(rec.open24h),
                    dec_scale(rec.open24h),
                ),
            )
        },
{
}

/// A 24h open of value zero never yields a report — the division is never
/// taken — but the explicit `InvalidPriceData` error.
pub proof fn lemma_zero_open_rejected(snap: Seq<RecordV>, id: Seq<char>)
    requires
        count_nonempty(split_seq(id, '-')) >= 2,
        snap.len() > 0,
        dec_num(snap[sel_index(snap, id)].open24h) == 0,
    ensures
        extract_spec(snap, id) == Err::<crate::extract::ReportV, ExtractError>(
            ExtractError::InvalidPriceData,
        ),
{
}

/// An empty identifier — as an empty entry of the comma-separated list is —
/// is malformed: it cannot split into two non-empty parts.
pub proof fn lemma_empty_id_malformed(snap: Seq<RecordV>)
    ensures
        extract_spec(snap, Seq::<char>::empty()) == Err::<crate::extract::ReportV, ExtractError>(
            ExtractError::MalformedInstrumentId,
        ),
{
    let parts = split_seq(Seq::<char>::empty(), '-');
    assert(parts =~~= seq![Seq::<char>::empty()]);
    assert(parts.drop_last() =~= Seq::<Seq<char>>::empty());
    assert(count_nonempty(Seq::<Seq<char>>::empty()) == 0);
    assert(parts.last().len() == 0);
    assert(count_nonempty(parts) == 0);
}

/// The price body succeeds exactly when every requested identifier
/// extracts; its lines stand in input order: the first identifier's line,
/// then the remaining identifiers' body, whatever order the snapshot holds
/// its records in.
pub proof fn lemma_body_per_id(snap: Seq<RecordV>, ids: Seq<Seq<char>>)
    ensures
        (body_of(snap, ids) is Ok) <==> (forall|i: int|
            0 <= i < ids.len() ==> #[trigger] extract_spec(snap, ids[i]) is Ok),
        body_of(snap, ids) matches Ok(b) ==> (ids.len() > 0 ==> b == report_line(
            extract_spec(snap, ids[0])->Ok_0,
        ) + body_of(snap, ids.drop_first())->Ok_0),
    decreases ids.len(),
{
    if ids.len() > 0 {
        let rest = ids.drop_first();
        lemma_body_per_id(snap, rest);
        assert(forall|j: int| 0 <= j < rest.len() ==> #[trigger] rest[j] == ids[j + 1]);
        if body_of(snap, ids) is Ok {
            assert forall|i: int| 0 <= i < ids.len() implies #[trigger] extract_spec(snap, ids[i])
                is Ok by {
                if i > 0 {
                    assert(rest[i - 1] == ids[i]);
                    assert(extract_spec(snap, rest[i - 1]) is Ok);
                }
            }
        }
        if forall|i: int| 0 <= i < ids.len() ==> #[trigger] extract_spec(snap, ids[i]) is Ok {
            assert forall|j: int| 0 <= j < rest.len() implies #[trigger] extract_spec(snap, rest[j])
                is Ok by {
                assert(rest[j] == ids[j + 1]);
                assert(extract_spec(snap, ids[j + 1]) is Ok);
            }
            assert(extract_spec(snap, ids[0]) is Ok);
            assert(body_of(snap, rest) is Ok);
        }
    }
}

/// The first failing identifier decides the whole response: the body is
/// that identifier's error, later identifiers notwithstanding.
pub proof fn lemma_body_first_error(snap: Seq<RecordV>, ids: Seq<Seq<char>>, i: int)
    requires
        0 <= i < ids.len(),
        extract_spec(snap, ids[i]) is Err,
        forall|j: int| 0 <= j < i ==> #[trigger] extract_spec(snap, ids[j]) is Ok,
    ensures
        body_of(snap, ids) == Err::<Seq<char>, (ExtractError, Seq<char>)>(
            (extract_spec(snap, ids[i])->Err_0, ids[i]),
        ),
    decreases i,
{
    if i > 0 {
        let rest = ids.drop_first();
        assert(forall|j: int| 0 <= j < rest.len() ==> #[trigger] rest[j] == ids[j + 1]);
        assert forall|j: int| 0 <= j < i - 1 implies #[trigger] extract_spec(snap, rest[j])
            is Ok by {
            assert(rest[j] == ids[j + 1]);
            assert(extract_spec(snap, ids[j + 1]) is Ok);
        }
        assert(rest[i - 1] == ids[i]);
        lemma_body_first_error(snap, rest, i - 1);
        assert(extract_spec(snap, ids[0]) is Ok);
    }
}

/// A failed upstream fetch surfaces as a 500 carrying the upstream error's
/// message; the request still gets an answer.
pub proof fn lemma_upstream_failure(ids_param: Seq<char>, m: Seq<char>)
    requires
        ids_param.len() > 0,
    ensures
        price_response_spec(ids_param, Err(m)) == (500int, m),
{
}

} // verus!

//! Assembly of the HTTP responses: the fixed pages, and the price endpoint
//! that turns a comma-separated identifier list plus the outcome of the
//! upstream fetch into a status code and a plain-text body.

use vstd::prelude::*;

use crate::extract::ExtractError;
use crate::extract::RecordV;
use crate::extract::ReportV;
use crate::extract::SymbolData;
use crate::extract::TickerRecord;
use crate::extract::extract_spec;
use crate::extract::split_seq;
use crate::extract::split_str;

verus! {

/// Body of the 400 answer to an empty instrument list.
pub open spec fn usage_text() -> Seq<char> {
    "Please provide one or more instrument_ids.\nSingle: XCH-USDT\nMultiple: SOL-USDT,XCH-USDT,ETH-USDT,BTC-USDT,FTM-USDT"@
}

/// Body of the root info page.
pub open spec fn root_text() -> Seq<char> {
    "======= Tickers Simple =======\nGithub: https://github.com/mpwsh/tickers\nAuthor: mpw <x@mpw.sh>\n==============================\nAvailable endpoints:\n  Single:\n  - /price/<inst_id> -- Example: /price/XCH-USDT\n  Multiple:\n  - /price/<inst_id>,<inst_id>,<inst_id> -- Example: /price/SOL-USDT,XCH-USDT\n"@
}

/// One output line of the price endpoint.
pub open spec fn report_line(r: ReportV) -> Seq<char> {
    r.symbol + ": "@ + r.dir + " "@ + r.change + "% "@ + r.price + " "@ + r.pair + "\n"@
}

/// Body of the 500 answer to a failed extraction, naming the identifier.
pub open spec fn err_text(e: ExtractError, id: Seq<char>) -> Seq<char> {
    match e {
        ExtractError::MalformedInstrumentId => "malformed instrument id: "@ + id,
        ExtractError::InvalidPriceData => "invalid price data for instrument: "@ + id,
    }
}

/// The concatenated report lines for `ids` against `snap`, in input order,
/// or the first extraction error together with the identifier that raised
/// it; an error aborts the remaining identifiers.
pub open spec fn body_of(snap: Seq<RecordV>, ids: Seq<Seq<char>>) -> Result<
    Seq<char>,
    (ExtractError, Seq<char>),
>
    decreases ids.len(),
{
    if ids.len() == 0 {
        Ok(Seq::empty())
    } else {
        match extract_spec(snap, ids[0]) {
            Err(e) => Err((e, ids[0])),
            Ok(rep) => match body_of(snap, ids.drop_first()) {
                Err(p) => Err(p),
                Ok(rest) => Ok(report_line(rep) + rest),
            },
        }
    }
}

/// Status and body of the price endpoint once a snapshot is at hand.
pub open spec fn price_body_spec(snap: Seq<RecordV>, ids_param: Seq<char>) -> (int, Seq<char>) {
    match body_of(snap, split_seq(ids_param, ',')) {
        Ok(b) => (200, b),
        Err(p) => (500, err_text(p.0, p.1)),
    }
}

pub open spec fn fetch_view(f: Result<Vec<TickerRecord>, String>) -> Result<
    Seq<RecordV>,
    Seq<char>,
> {
    match f {
        Ok(v) => Ok(v.deep_view()),
        Err(m) => Err(m@),
    }
}

/// Status and body of the price endpoint on every input: a 400 with usage
/// help for an empty list, a 500 carrying the upstream error's message when
/// the fetch failed, and otherwise the per-identifier reports.
pub open spec fn price_response_spec(
    ids_param: Seq<char>,
    fetch: Result<Seq<RecordV>, Seq<char>>,
) -> (int, Seq<char>) {
    if ids_param.len() == 0 {
        (400, usage_text())
    } else {
        match fetch {
            Err(m) => (500, m),
            Ok(snap) => price_body_spec(snap, ids_param),
        }
    }
}

/// The fixed usage-help text.
pub fn usage_message() -> (r: String)
    ensures
        r@ == usage_text(),
{
    String::from_str(
        "Please provide one or more instrument_ids.\nSingle: XCH-USDT\nMultiple: SOL-USDT,XCH-USDT,ETH-USDT,BTC-USDT,FTM-USDT",
    )
}

/// The root info page.
pub fn root_page() -> (r: &'static str)
    ensures
        r@ == root_text(),
{
    "======= Tickers Simple =======\nGithub: https://github.com/mpwsh/tickers\nAuthor: mpw <x@mpw.sh>\n==============================\nAvailable endpoints:\n  Single:\n  - /price/<inst_id> -- Example: /price/XCH-USDT\n  Multiple:\n  - /price/<inst_id>,<inst_id>,<inst_id> -- Example: /price/SOL-USDT,XCH-USDT\n"
}

/// Format one report as its output line.
pub fn line_of(d: &SymbolData) -> (r: String)
    ensures
        r@ == report_line(d@),
{
    let mut out = String::new();
    out.append(d.symbol.as_str());
    out.append(": ");
    out.append(d.dir.as_str());
    out.append(" ");
    out.append(d.change.as_str());
    out.append("% ");
    out.append(d.price.as_str());
    out.append(" ");
    out.append(d.pair.as_str());
    out.append("\n");
    proof {
        assert(out@ =~= report_line(d@));
    }
    out
}

/// Format an extraction error as the 500 body.
pub fn err_message(e: ExtractError, id: &str) -> (r: String)
    ensures
        r@ == err_text(e, id@),
{
    let mut out = match e {
        ExtractError::MalformedInstrumentId => String::from_str("malformed instrument id: "),
        ExtractError::InvalidPriceData => String::from_str("invalid price data for instrument: "),
    };
    out.append(id);
    out
}

/// Run the extractor over every requested identifier, in input order, and
/// assemble the 200 body, or the 500 body of the first error.
pub fn render_reports(inst_ids: &str, snapshot: &Vec<TickerRecord>) -> (r: (u16, String))
    ensures
        r.0 as int == price_body_spec(snapshot.deep_view(), inst_ids@).0,
        r.1@ == price_body_spec(snapshot.deep_view(), inst_ids@).1,
{
    let ghost snap = snapshot.deep_view();
    let ids = split_str(inst_ids, ',');
    let ghost idsv = ids.deep_view();
    let n = ids.len();
    let mut payload = String::new();
    let mut k: usize = 0;
    proof {
        assert(idsv.subrange(0, n as int) =~= idsv);
    }
    while k < n
        invariant
            0 <= k <= n,
            n == ids.len(),
            idsv == ids.deep_view(),
            idsv == split_seq(inst_ids@, ','),
            snap == snapshot.deep_view(),
            body_of(snap, idsv) == (match body_of(snap, idsv.subrange(k as int, n as int)) {
                Ok(rest) => Ok::<Seq<char>, (ExtractError, Seq<char>)>(payload@ + rest),
                Err(p) => Err(p),
            }),
        decreases n - k,
    {
        let ghost suffix = idsv.subrange(k as int, n as int);
        let ghost sfx2 = idsv.subrange(k + 1, n as int);
        proof {
            assert(suffix.len() > 0);
            assert(suffix[0] == idsv[k as int]);
            assert(suffix.drop_first() =~= sfx2);
            assert(idsv[k as int] == ids@[k as int].deep_view());
        }
        let d = SymbolData::build(snapshot, ids[k].clone());
        match d {
            Err(e) => {
                let msg = err_message(e, ids[k].as_str());
                proof {
                    assert(extract_spec(snap, idsv[k as int]) == Err::<ReportV, ExtractError>(e));
                    assert(body_of(snap, suffix) == Err::<Seq<char>, (ExtractError, Seq<char>)>(
                        (e, idsv[k as int]),
                    ));
                }
                return (500, msg);
            },
            Ok(rep) => {
                let ghost old_payload = payload@;
                let line = line_of(&rep);
                payload.append(line.as_str());
                proof {
                    if body_of(snap, sfx2) is Ok {
                        let rest2 = body_of(snap, sfx2)->Ok_0;
                        assert(old_payload + (report_line(rep@) + rest2) =~= (old_payload
                            + report_line(rep@)) + rest2);
                    }
                }
            },
        }
        k = k + 1;
    }
    proof {
        assert(idsv.subrange(n as int, n as int) =~= Seq::<Seq<char>>::empty());
        if body_of(snap, idsv) is Ok {
            assert(payload@ + Seq::<char>::empty() =~= payload@);
        }
    }
    (200, payload)
}

/// The price endpoint, given the raw path parameter and the outcome of the
/// one upstream fetch of this request.
pub fn price_response(inst_ids: &str, fetch: Result<Vec<TickerRecord>, String>) -> (r: (
    u16,
    String,
))
    ensures
        r.0 as int == price_response_spec(inst_ids@, fetch_view(fetch)).0,
        r.1@ == price_response_spec(inst_ids@, fetch_view(fetch)).1,
{
    if inst_ids.unicode_len() == 0 {
        return (400, usage_message());
    }
    match fetch {
        Err(m) => (500, m),
        Ok(snapshot) => render_reports(inst_ids, &snapshot),
    }
}

} // verus!

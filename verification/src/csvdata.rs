//! Extracting the value set of a CSV source: one column supplies the
//! values, chosen by an optional header selector.
//!
//! Parsing the comma-separated, quote-aware syntax is delegated to the
//! `csv` crate; everything after parsing — header resolution, column
//! selection, the ragged-row check, deduplication — is verified here.

use vstd::prelude::*;
use crate::error::DffError;
use crate::values::{dedup, ValueSet};

verus! {

/// What the `csv` crate parses a byte sequence into: the rows, each a
/// sequence of string fields — or nothing, where the bytes cannot be
/// read as CSV. The result depends on the bytes alone.
pub uninterp spec fn csv_parse(bytes: Seq<u8>) -> Option<Seq<Seq<Seq<char>>>>;

/// Relies on `csv::ReaderBuilder` and `Reader::records`: with the header
/// row not treated specially and flexible record lengths, every row of the
/// input becomes one record of string fields, a function of the input
/// bytes alone; a row that cannot be decoded is the `None` case.
#[verifier::external_body]
fn parse_records(data: &[u8]) -> (r: Option<Vec<Vec<String>>>)
    ensures
        match r {
            Some(recs) => csv_parse(data@) == Some(recs.deep_view()),
            None => csv_parse(data@) is None,
        },
{
    let mut rdr = csv::ReaderBuilder::new().has_headers(false).flexible(true).from_reader(data);
    let mut out: Vec<Vec<String>> = Vec::new();
    for record in rdr.records() {
        match record {
            Ok(rec) => out.push(rec.iter().map(str::to_string).collect()),
            Err(_) => return None,
        }
    }
    Some(out)
}

/// Index of the first field of `hdr` equal to `h`, or `-1` if none is.
pub open spec fn first_index_of(hdr: Seq<Seq<char>>, h: Seq<char>) -> int
    decreases hdr.len(),
{
    if hdr.len() == 0 {
        -1
    } else if hdr[0] == h {
        0
    } else {
        let r = first_index_of(hdr.drop_first(), h);
        if r < 0 {
            -1
        } else {
            r + 1
        }
    }
}

/// What `first_index_of` finds: `-1` means no field matches; otherwise it
/// is the position of the first matching field.
pub proof fn lemma_first_index_of(hdr: Seq<Seq<char>>, h: Seq<char>)
    ensures
        first_index_of(hdr, h) == -1 ==> forall|k: int| 0 <= k < hdr.len() ==> hdr[k] != h,
        first_index_of(hdr, h) >= 0 ==> 0 <= first_index_of(hdr, h) < hdr.len() && hdr[
            first_index_of(hdr, h)
        ] == h && (forall|k: int| 0 <= k < first_index_of(hdr, h) ==> hdr[k] != h),
    decreases hdr.len(),
{
    if hdr.len() > 0 && hdr[0] != h {
        lemma_first_index_of(hdr.drop_first(), h);
        let t = hdr.drop_first();
        let r = first_index_of(t, h);
        if r < 0 {
            assert forall|k: int| 0 <= k < hdr.len() implies hdr[k] != h by {
                if k > 0 {
                    assert(t[k - 1] == hdr[k]);
                }
            }
        } else {
            assert(hdr[r + 1] == t[r]);
            assert forall|k: int| 0 <= k < r + 1 implies hdr[k] != h by {
                if k > 0 {
                    assert(t[k - 1] == hdr[k]);
                }
            }
        }
    }
}

/// The column a header selector resolves to: the position of the first
/// header field equal to the selector, or column `0` where no field
/// matches (the selector falls back to the leading column).
pub open spec fn sel_index(hdr: Seq<Seq<char>>, h: Seq<char>) -> int {
    if first_index_of(hdr, h) >= 0 {
        first_index_of(hdr, h)
    } else {
        0
    }
}

/// Every record has a field at column `idx`.
pub open spec fn records_long_enough(records: Seq<Seq<Seq<char>>>, idx: int) -> bool {
    forall|k: int| 0 <= k < records.len() ==> idx < #[trigger] records[k].len()
}

/// Column `idx` of every record, in record order.
pub open spec fn column_at(records: Seq<Seq<Seq<char>>>, idx: int) -> Seq<Seq<char>> {
    records.map_values(|r: Seq<Seq<char>>| r[idx])
}

/// The value set of the records when column `idx` supplies the values:
/// that column, duplicates collapsed — unless some record is too short
/// for the column, which is a malformed record.
pub open spec fn csv_values_at(records: Seq<Seq<Seq<char>>>, idx: int) -> Result<
    Seq<Seq<char>>,
    DffError,
> {
    if records_long_enough(records, idx) {
        Ok(dedup(column_at(records, idx)))
    } else {
        Err(DffError::MalformedRecord)
    }
}

/// The value set of a CSV source. Without a selector the source is
/// headerless and column `0` of every record supplies the values. With a
/// selector the first record is the header row (its absence is a
/// malformed source), the selector resolves to a column as `sel_index`
/// says, and the remaining records supply the values from that column.
pub open spec fn csv_values(records: Seq<Seq<Seq<char>>>, sel: Option<Seq<char>>) -> Result<
    Seq<Seq<char>>,
    DffError,
> {
    match sel {
        None => csv_values_at(records, 0),
        Some(h) => {
            if records.len() == 0 {
                Err(DffError::MalformedRecord)
            } else {
                csv_values_at(records.drop_first(), sel_index(records[0], h))
            }
        },
    }
}

/// Selecting by a header that the header row holds yields the same values
/// as fixed-column selection at the position the header resolves to, over
/// the data rows; in particular, a header found at position `0` yields
/// exactly what headerless extraction of the data rows yields.
pub proof fn lemma_header_matches_index(records: Seq<Seq<Seq<char>>>, h: Seq<char>)
    requires
        records.len() > 0,
        first_index_of(records[0], h) >= 0,
    ensures
        csv_values(records, Some(h)) == csv_values_at(
            records.drop_first(),
            first_index_of(records[0], h),
        ),
        first_index_of(records[0], h) == 0 ==> csv_values(records, Some(h)) == csv_values(
            records.drop_first(),
            None,
        ),
{
}

/// Select the value column of already-parsed CSV records, as `csv_values`
/// says: header resolution, the ragged-row check, and deduplication.
pub fn select_values(records: &Vec<Vec<String>>, header: &Option<String>) -> (r: Result<
    ValueSet,
    DffError,
>)
    ensures
        match r {
            Ok(vs) => csv_values(records.deep_view(), header.deep_view()) == Ok::<Seq<Seq<char>>, DffError>(vs@) && vs.wf(),
            Err(e) => csv_values(records.deep_view(), header.deep_view()) == Err::<
                Seq<Seq<char>>,
                DffError,
            >(e),
        },
{
    let ghost rd = records.deep_view();
    let ghost hd = header.deep_view();
    let n = records.len();
    let mut start: usize = 0;
    let mut idx: usize = 0;
    let ghost mut body = rd;
    match header {
        None => {
            proof {
                assert(rd.subrange(0, rd.len() as int) =~= rd);
                assert(csv_values(rd, hd) == csv_values_at(body, idx as int));
            }
        },
        Some(h) => {
            if n == 0 {
                return Err(DffError::MalformedRecord);
            }
            let hdr = &records[0];
            let ghost hs = rd[0];
            proof {
                assert(hs == hdr.deep_view());
            }
            let m = hdr.len();
            let mut j: usize = 0;
            let mut found = false;
            while j < m && !found
                invariant
                    m == hdr.len(),
                    hs == hdr.deep_view(),
                    j <= m,
                    !found ==> forall|k: int| 0 <= k < j ==> hs[k] != h@,
                    found ==> j < m && hs[j as int] == h@ && (forall|k: int|
                        0 <= k < j ==> hs[k] != h@),
                decreases m - j, (if found { 0int } else { 1int }),
            {
                if hdr[j].eq(h) {
                    found = true;
                    proof {
                        assert(hs[j as int] == h@);
                    }
                } else {
                    j += 1;
                }
            }
            proof {
                lemma_first_index_of(hs, h@);
                if found {
                    assert(first_index_of(hs, h@) == j);
                } else {
                    assert(first_index_of(hs, h@) == -1);
                }
            }
            if found {
                idx = j;
            }
            start = 1;
            proof {
                assert(idx == sel_index(hs, h@));
                body = rd.drop_first();
                assert(rd.drop_first() =~= rd.subrange(1, rd.len() as int));
                assert(csv_values(rd, hd) == csv_values_at(body, idx as int));
            }
        },
    }
    let mut vs = ValueSet::new();
    let mut k = start;
    proof {
        assert(body.subrange(0, 0) =~= Seq::<Seq<Seq<char>>>::empty());
        assert(column_at(Seq::<Seq<Seq<char>>>::empty(), idx as int)
            =~= Seq::<Seq<char>>::empty());
    }
    while k < n
        invariant
            n == records.len(),
            rd == records.deep_view(),
            body == rd.subrange(start as int, rd.len() as int),
            csv_values(rd, hd) == csv_values_at(body, idx as int),
            hd == header.deep_view(),
            start <= k <= n,
            vs.wf(),
            vs@ == dedup(column_at(body.subrange(0, k - start), idx as int)),
            forall|m: int| 0 <= m < k - start ==> (idx as int) < #[trigger] body[m].len(),
        decreases n - k,
    {
        let rec = &records[k];
        proof {
            assert(body[k - start] == rec.deep_view());
        }
        if idx >= rec.len() {
            proof {
                assert(body[k - start].len() <= idx);
                assert(!records_long_enough(body, idx as int));
            }
            return Err(DffError::MalformedRecord);
        }
        let ghost pre = body.subrange(0, k - start);
        proof {
            assert(body.subrange(0, k - start + 1).drop_last() =~= pre);
            assert(body.subrange(0, k - start + 1).last() == body[k - start]);
            assert(column_at(body.subrange(0, k - start + 1), idx as int) =~= column_at(
                pre,
                idx as int,
            ).push(body[k - start][idx as int]));
            assert(column_at(pre, idx as int).push(body[k - start][idx as int]).drop_last()
                =~= column_at(pre, idx as int));
            assert(rec.deep_view()[idx as int] == rec[idx as int].deep_view());
        }
        vs.insert(rec[idx].clone());
        k += 1;
    }
    proof {
        assert(body.subrange(0, n - start) =~= body);
        assert(records_long_enough(body, idx as int));
    }
    Ok(vs)
}

/// Read a CSV source, already loaded as bytes, into its value set: parse
/// the bytes as CSV records, then select the value column as `csv_values`
/// says. Bytes that cannot be parsed are a malformed source.
pub fn read_csv(data: &[u8], header: &Option<String>) -> (r: Result<ValueSet, DffError>)
    ensures
        match csv_parse(data@) {
            None => r == Err::<ValueSet, DffError>(DffError::MalformedRecord),
            Some(recs) => match r {
                Ok(vs) => csv_values(recs, header.deep_view()) == Ok::<Seq<Seq<char>>, DffError>(vs@) && vs.wf(),
                Err(e) => csv_values(recs, header.deep_view()) == Err::<
                    Seq<Seq<char>>,
                    DffError,
                >(e),
            },
        },
{
    match parse_records(data) {
        None => Err(DffError::MalformedRecord),
        Some(records) => select_values(&records, header),
    }
}

} // verus!

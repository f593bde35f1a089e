//! Range source: the cached GeoIP dataset parsed into exclusion ranges.
//!
//! Each dataset row is `start,end,alpha-2[,...]` with the bounds written
//! as decimal 32-bit integers. Rows whose country matches one of the
//! requested codes (case-insensitively) contribute their range; a row
//! with fewer than three fields or a non-numeric bound fails the whole
//! load, so no proof is ever run over a silently truncated range set.

use crate::strutil::{digits_val, is_u32_text, parse_dec_u32, spec_split, spec_upper, split_commas,
    upper_string};
use vstd::prelude::*;
use vstd::string::*;

verus! {

/// Errors from loading the range dataset.
#[derive(Debug, Clone, Copy, PartialEq, Eq, Structural)]
pub enum DatasetError {
    /// A row splits into fewer than three fields.
    WrongFieldCount,
    /// A bound field is empty, non-numeric or over 32 bits.
    InvalidBound,
}

/// The ranges one row contributes, or the error it raises.
pub open spec fn row_ranges(line: Seq<char>, codes: Seq<Seq<char>>) -> Result<
    Seq<(u32, u32)>,
    DatasetError,
> {
    let fields = spec_split(line, ',');
    if fields.len() < 3 {
        Err(DatasetError::WrongFieldCount)
    } else if !is_u32_text(fields[0]) || !is_u32_text(fields[1]) {
        Err(DatasetError::InvalidBound)
    } else if codes.contains(spec_upper(fields[2])) {
        Ok(seq![(digits_val(fields[0]) as u32, digits_val(fields[1]) as u32)])
    } else {
        Ok(Seq::empty())
    }
}

/// The ranges of all matching rows in file order, or the first error.
pub open spec fn spec_parse_ranges(lines: Seq<Seq<char>>, codes: Seq<Seq<char>>) -> Result<
    Seq<(u32, u32)>,
    DatasetError,
>
    decreases lines.len(),
{
    if lines.len() == 0 {
        Ok(Seq::empty())
    } else {
        match spec_parse_ranges(lines.drop_last(), codes) {
            Err(e) => Err(e),
            Ok(rs) => match row_ranges(lines.last(), codes) {
                Err(e) => Err(e),
                Ok(r) => Ok(rs + r),
            },
        }
    }
}

/// Does any requested code equal this upper-cased country field?
fn contains_code(codes: &Vec<String>, country: &String) -> (r: bool)
    ensures
        r == codes@.map_values(|c: String| c@).contains(country@),
{
    let ghost cv = codes@.map_values(|c: String| c@);
    let mut k: usize = 0;
    while k < codes.len()
        invariant
            0 <= k <= codes@.len(),
            cv == codes@.map_values(|c: String| c@),
            forall|q: int| 0 <= q < k ==> cv[q] != country@,
        decreases codes@.len() - k,
    {
        if codes[k].eq(country) {
            assert(cv[k as int] == country@);
            return true;
        }
        k = k + 1;
    }
    false
}

/// Load the exclusion ranges for the requested countries from the
/// dataset's file lines.
pub fn load_ip_ranges_for_countries(lines: &Vec<String>, country_codes: &Vec<String>) -> (r:
    Result<Vec<(u32, u32)>, DatasetError>)
    ensures
        match r {
            Ok(ranges) => spec_parse_ranges(
                lines@.map_values(|l: String| l@),
                country_codes@.map_values(|c: String| c@),
            ) == Ok::<_, DatasetError>(ranges@),
            Err(e) => spec_parse_ranges(
                lines@.map_values(|l: String| l@),
                country_codes@.map_values(|c: String| c@),
            ) == Err::<Seq<(u32, u32)>, _>(e),
        },
{
    let ghost lv = lines@.map_values(|l: String| l@);
    let ghost cv = country_codes@.map_values(|c: String| c@);
    let mut ranges: Vec<(u32, u32)> = Vec::new();
    let mut i: usize = 0;
    proof {
        assert(lv.take(0) =~= Seq::<Seq<char>>::empty());
        assert(spec_parse_ranges(lv.take(0), cv) == Ok::<_, DatasetError>(ranges@));
    }
    while i < lines.len()
        invariant
            0 <= i <= lines@.len(),
            lv == lines@.map_values(|l: String| l@),
            cv == country_codes@.map_values(|c: String| c@),
            spec_parse_ranges(lv.take(i as int), cv) == Ok::<_, DatasetError>(ranges@),
        decreases lines@.len() - i,
    {
        let ghost pre1 = lv.take(i + 1);
        proof {
            assert(pre1.drop_last() =~= lv.take(i as int));
            assert(pre1.last() == lines@[i as int]@);
        }
        let fields = split_commas(lines[i].as_str());
        if fields.len() < 3 {
            assert(fields@.map_values(|f: String| f@).len() < 3);
            assert(spec_parse_ranges(pre1, cv) == Err::<Seq<(u32, u32)>, _>(
                DatasetError::WrongFieldCount,
            ));
            proof {
                lemma_parse_ranges_err_prefix(lv, cv, i + 1, DatasetError::WrongFieldCount);
            }
            return Err(DatasetError::WrongFieldCount);
        }
        let ghost fv = fields@.map_values(|f: String| f@);
        let start_len = fields[0].as_str().unicode_len();
        let start = parse_dec_u32(fields[0].as_str(), 0, start_len);
        let end_len = fields[1].as_str().unicode_len();
        let end = parse_dec_u32(fields[1].as_str(), 0, end_len);
        proof {
            assert(fields@[0]@.subrange(0, fields@[0]@.len() as int) =~= fv[0]);
            assert(fields@[1]@.subrange(0, fields@[1]@.len() as int) =~= fv[1]);
        }
        match (start, end) {
            (Some(s), Some(e)) => {
                let country = upper_string(fields[2].as_str());
                assert(country@ == spec_upper(fv[2]));
                if contains_code(country_codes, &country) {
                    let ghost prev = ranges@;
                    ranges.push((s, e));
                    proof {
                        assert(row_ranges(pre1.last(), cv) == Ok::<_, DatasetError>(
                            seq![(s, e)],
                        ));
                        assert(ranges@ =~= prev + seq![(s, e)]);
                        assert(spec_parse_ranges(pre1, cv) == Ok::<_, DatasetError>(ranges@));
                    }
                } else {
                    proof {
                        assert(row_ranges(pre1.last(), cv) == Ok::<_, DatasetError>(
                            Seq::<(u32, u32)>::empty(),
                        ));
                        assert(ranges@ =~= ranges@ + Seq::<(u32, u32)>::empty());
                        assert(spec_parse_ranges(pre1, cv) == Ok::<_, DatasetError>(ranges@));
                    }
                }
            },
            _ => {
                assert(!is_u32_text(fv[0]) || !is_u32_text(fv[1]));
                assert(spec_parse_ranges(pre1, cv) == Err::<Seq<(u32, u32)>, _>(
                    DatasetError::InvalidBound,
                ));
                proof {
                    lemma_parse_ranges_err_prefix(lv, cv, i + 1, DatasetError::InvalidBound);
                }
                return Err(DatasetError::InvalidBound);
            },
        }
        i = i + 1;
    }
    proof {
        assert(lv.take(lv.len() as int) =~= lv);
    }
    Ok(ranges)
}

/// An error in a prefix of the rows is the error of the whole load.
proof fn lemma_parse_ranges_err_prefix(
    lines: Seq<Seq<char>>,
    codes: Seq<Seq<char>>,
    m: int,
    e: DatasetError,
)
    requires
        0 <= m <= lines.len(),
        spec_parse_ranges(lines.take(m), codes) == Err::<Seq<(u32, u32)>, _>(e),
    ensures
        spec_parse_ranges(lines, codes) == Err::<Seq<(u32, u32)>, _>(e),
    decreases lines.len() - m,
{
    if m < lines.len() {
        let pre1 = lines.take(m + 1);
        assert(pre1.drop_last() =~= lines.take(m));
        assert(spec_parse_ranges(pre1, codes) == Err::<Seq<(u32, u32)>, _>(e));
        lemma_parse_ranges_err_prefix(lines, codes, m + 1, e);
    } else {
        assert(lines.take(m) =~= lines);
    }
}

} // verus!

//! Country code resolver.
//!
//! A reference table maps alpha-2 country codes (two letters, kept
//! upper-case) to ISO 3166-1 numeric codes. Caller-supplied codes are
//! split on commas, trimmed and upper-cased; blank entries are skipped;
//! order and duplicates are preserved. Resolution fails when any
//! remaining code is absent from the table, or when none remain.

use crate::strutil::{all_digits, digits_val, is_u32_text, parse_dec_u32, spec_split, spec_trim,
    spec_upper, split_commas, normalize_token, upper_string};
use vstd::prelude::*;
use vstd::string::*;

verus! {

/// One reference-table row: an alpha-2 code and its numeric code.
#[derive(Debug, Clone)]
pub struct CountryRecord {
    /// Two-letter code, upper-case as loaded.
    pub alpha2: String,
    /// ISO 3166-1 numeric code.
    pub numeric: u16,
}

/// Errors from resolving caller-supplied country codes.
#[derive(Debug, Clone, Copy, PartialEq, Eq, Structural)]
pub enum ResolveError {
    /// A normalized code is absent from the reference table.
    UnknownCountryCode,
    /// No codes remain once blank entries are dropped.
    EmptyCountrySet,
}

pub open spec fn table_view(t: Seq<CountryRecord>) -> Seq<(Seq<char>, u16)> {
    t.map_values(|r: CountryRecord| (r.alpha2@, r.numeric))
}

/// A numeral that fits an ISO 3166-1 numeric code.
pub open spec fn is_u16_text(s: Seq<char>) -> bool {
    s.len() >= 1 && all_digits(s) && digits_val(s) <= 0xFFFF
}

/// The table entry a data row yields: the upper-cased second field and
/// the numeric fourth field, or nothing when the row does not fit.
pub open spec fn row_entry(line: Seq<char>) -> Option<(Seq<char>, u16)> {
    let fields = spec_split(line, ',');
    if fields.len() >= 4 && is_u16_text(fields[3]) {
        Some((spec_upper(fields[1]), digits_val(fields[3]) as u16))
    } else {
        None
    }
}

/// The entries of all data rows, in file order; the first line is a
/// header and rows that do not fit are skipped.
pub open spec fn spec_parse_table(lines: Seq<Seq<char>>) -> Seq<(Seq<char>, u16)>
    decreases lines.len(),
{
    if lines.len() <= 1 {
        Seq::empty()
    } else {
        spec_parse_table(lines.drop_last()) + match row_entry(lines.last()) {
            Some(e) => seq![e],
            None => Seq::empty(),
        }
    }
}

/// Load the country-code reference table from its file lines.
pub fn parse_country_table(lines: &Vec<String>) -> (table: Vec<CountryRecord>)
    ensures
        table_view(table@) == spec_parse_table(lines@.map_values(|l: String| l@)),
{
    let ghost lv = lines@.map_values(|l: String| l@);
    let mut table: Vec<CountryRecord> = Vec::new();
    let mut i: usize = 1;
    if lines.len() <= 1 {
        proof {
            assert(table_view(table@) =~= spec_parse_table(lv));
        }
        return table;
    }
    proof {
        assert(lv.take(1).len() == 1);
        assert(table_view(table@) =~= spec_parse_table(lv.take(1)));
    }
    while i < lines.len()
        invariant
            1 <= i <= lines@.len(),
            lv == lines@.map_values(|l: String| l@),
            table_view(table@) == spec_parse_table(lv.take(i as int)),
        decreases lines@.len() - i,
    {
        let ghost pre1 = lv.take(i + 1);
        proof {
            assert(pre1.drop_last() =~= lv.take(i as int));
            assert(pre1.last() == lines@[i as int]@);
        }
        let fields = split_commas(lines[i].as_str());
        if fields.len() >= 4 {
            let numeric_field = &fields[3];
            let nlen = numeric_field.as_str().unicode_len();
            let parsed = parse_dec_u32(numeric_field.as_str(), 0, nlen);
            proof {
                assert(numeric_field@.subrange(0, numeric_field@.len() as int)
                    =~= numeric_field@);
                assert(fields@.map_values(|p: String| p@)[3] == numeric_field@);
            }
            match parsed {
                Some(v) if v <= 0xFFFF => {
                    let alpha = upper_string(fields[1].as_str());
                    proof {
                        assert(fields@.map_values(|p: String| p@)[1] == fields@[1]@);
                    }
                    table.push(CountryRecord { alpha2: alpha, numeric: v as u16 });
                    proof {
                        assert(row_entry(pre1.last()) == Some((alpha@, v as u16)));
                        assert(table_view(table@) =~= table_view(table@.drop_last()).push(
                            (alpha@, v as u16),
                        ));
                        assert(table_view(table@) =~= spec_parse_table(pre1));
                    }
                },
                _ => {
                    proof {
                        assert(row_entry(pre1.last()) is None);
                        assert(table_view(table@) =~= spec_parse_table(pre1));
                    }
                },
            }
        } else {
            proof {
                assert(fields@.map_values(|p: String| p@).len() < 4);
                assert(row_entry(pre1.last()) is None);
                assert(table_view(table@) =~= spec_parse_table(pre1));
            }
        }
        i = i + 1;
    }
    proof {
        assert(lv.take(lv.len() as int) =~= lv);
    }
    table
}

/// The numeric code of the last table entry matching the key, if any:
/// a later row overrides an earlier one with the same code.
pub open spec fn lookup(table: Seq<(Seq<char>, u16)>, key: Seq<char>) -> Option<u16>
    decreases table.len(),
{
    if table.len() == 0 {
        None
    } else if table.last().0 == key {
        Some(table.last().1)
    } else {
        lookup(table.drop_last(), key)
    }
}

/// Look a normalized code up in the reference table.
fn lookup_exec(table: &Vec<CountryRecord>, key: &String) -> (r: Option<u16>)
    ensures
        r == lookup(table_view(table@), key@),
{
    let ghost tv = table_view(table@);
    let mut k = table.len();
    proof {
        assert(tv.take(tv.len() as int) =~= tv);
    }
    while k > 0
        invariant
            0 <= k <= table@.len(),
            tv == table_view(table@),
            lookup(tv, key@) == lookup(tv.take(k as int), key@),
        decreases k,
    {
        k = k - 1;
        proof {
            assert(tv.take(k + 1).drop_last() =~= tv.take(k as int));
            assert(tv.take(k + 1).last() == tv[k as int]);
        }
        if table[k].alpha2.eq(key) {
            assert(tv[k as int].0 == key@);
            return Some(table[k].numeric);
        }
        assert(tv[k as int].0 != key@);
    }
    proof {
        assert(tv.take(0) =~= Seq::<(Seq<char>, u16)>::empty());
    }
    None
}

/// Normalize a caller-supplied code: trim whitespace, upper-case.
pub open spec fn normalize(tok: Seq<char>) -> Seq<char> {
    spec_upper(spec_trim(tok))
}

/// The normalized tokens that survive blank filtering, in order.
pub open spec fn kept_tokens(tokens: Seq<Seq<char>>) -> Seq<Seq<char>>
    decreases tokens.len(),
{
    if tokens.len() == 0 {
        Seq::empty()
    } else {
        let rest = kept_tokens(tokens.drop_last());
        let n = normalize(tokens.last());
        if n.len() > 0 {
            rest.push(n)
        } else {
            rest
        }
    }
}

/// What resolving a token list against a table yields: the kept codes
/// and their numeric codes, or the error the list deserves.
pub open spec fn spec_resolve(tokens: Seq<Seq<char>>, table: Seq<(Seq<char>, u16)>) -> Result<
    (Seq<Seq<char>>, Seq<u16>),
    ResolveError,
> {
    let kept = kept_tokens(tokens);
    if exists|i: int| 0 <= i < kept.len() && lookup(table, #[trigger] kept[i]) is None {
        Err(ResolveError::UnknownCountryCode)
    } else if kept.len() == 0 {
        Err(ResolveError::EmptyCountrySet)
    } else {
        Ok((kept, kept.map_values(|t: Seq<char>| lookup(table, t)->Some_0)))
    }
}

/// Each prefix of the token list keeps a prefix of the kept codes.
proof fn lemma_kept_prefix(tokens: Seq<Seq<char>>, i: int)
    requires
        0 <= i <= tokens.len(),
    ensures
        kept_tokens(tokens.take(i)).is_prefix_of(kept_tokens(tokens)),
    decreases tokens.len() - i,
{
    if i < tokens.len() {
        lemma_kept_prefix(tokens, i + 1);
        let pre1 = tokens.take(i + 1);
        assert(pre1.drop_last() =~= tokens.take(i));
        assert(pre1.last() == tokens[i]);
        assert(kept_tokens(tokens.take(i)).is_prefix_of(kept_tokens(pre1)));
    } else {
        assert(tokens.take(i) =~= tokens);
    }
}

/// Parse comma-separated country codes and resolve to numeric codes.
pub fn parse_excluded_countries(exclude_arg: &str, table: &Vec<CountryRecord>) -> (r: Result<
    (Vec<String>, Vec<u16>),
    ResolveError,
>)
    ensures
        match r {
            Ok((alphas, numerics)) => spec_resolve(spec_split(exclude_arg@, ','), table_view(
                table@,
            )) == Ok::<_, ResolveError>((
                alphas@.map_values(|a: String| a@),
                numerics@,
            )),
            Err(e) => spec_resolve(spec_split(exclude_arg@, ','), table_view(table@)) == Err::<
                (Seq<Seq<char>>, Seq<u16>),
                _,
            >(e),
        },
{
    let ghost tv = table_view(table@);
    let parts = split_commas(exclude_arg);
    let ghost tokens = spec_split(exclude_arg@, ',');
    let ghost kept = kept_tokens(tokens);
    let mut alphas: Vec<String> = Vec::new();
    let mut numerics: Vec<u16> = Vec::new();
    let mut i: usize = 0;
    proof {
        assert(parts@.map_values(|p: String| p@) == tokens);
        assert(kept_tokens(tokens.take(0)) =~= Seq::<Seq<char>>::empty());
        assert(alphas@.map_values(|a: String| a@) =~= kept_tokens(tokens.take(0)));
    }
    while i < parts.len()
        invariant
            0 <= i <= parts@.len() == tokens.len(),
            tv == table_view(table@),
            tokens == spec_split(exclude_arg@, ','),
            tokens == parts@.map_values(|p: String| p@),
            kept == kept_tokens(tokens),
            alphas@.map_values(|a: String| a@) == kept_tokens(tokens.take(i as int)),
            numerics@.len() == alphas@.len(),
            forall|q: int|
                0 <= q < alphas@.len() ==> lookup(tv, #[trigger] alphas@[q]@) == Some(
                    numerics@[q],
                ),
        decreases parts@.len() - i,
    {
        let ghost pre1 = tokens.take(i + 1);
        proof {
            assert(pre1.drop_last() =~= tokens.take(i as int));
            assert(pre1.last() == tokens[i as int]);
            assert(tokens[i as int] == parts@[i as int]@);
        }
        let norm = normalize_token(parts[i].as_str());
        assert(norm@ == normalize(tokens[i as int]));
        if norm.as_str().unicode_len() > 0 {
            match lookup_exec(table, &norm) {
                Some(numeric) => {
                    alphas.push(norm);
                    numerics.push(numeric);
                    proof {
                        assert(alphas@.map_values(|a: String| a@) =~= alphas@.map_values(
                            |a: String| a@,
                        ).drop_last().push(alphas@.last()@));
                        assert(alphas@.map_values(|a: String| a@) =~= kept_tokens(pre1));
                    }
                },
                None => {
                    proof {
                        lemma_kept_prefix(tokens, i + 1);
                        let kp = kept_tokens(pre1);
                        assert(kp.last() == norm@);
                        let w = kp.len() - 1;
                        assert(kp.is_prefix_of(kept));
                        assert(kept.subrange(0, kp.len() as int)[w] == kept[w]);
                        assert(kept[w] == norm@);
                        assert(0 <= w < kept_tokens(tokens).len() && lookup(
                            tv,
                            kept_tokens(tokens)[w],
                        ) is None);
                        assert(exists|q: int|
                            0 <= q < kept_tokens(tokens).len() && lookup(
                                tv,
                                #[trigger] kept_tokens(tokens)[q],
                            ) is None);
                        assert(spec_resolve(tokens, tv) == Err::<
                            (Seq<Seq<char>>, Seq<u16>),
                            ResolveError,
                        >(ResolveError::UnknownCountryCode));
                    }
                    return Err(ResolveError::UnknownCountryCode);
                },
            }
        } else {
            proof {
                assert(alphas@.map_values(|a: String| a@) =~= kept_tokens(pre1));
            }
        }
        i = i + 1;
    }
    proof {
        assert(tokens.take(tokens.len() as int) =~= tokens);
        assert(alphas@.map_values(|a: String| a@) == kept);
    }
    if numerics.len() == 0 {
        proof {
            assert(kept.len() == 0);
            assert(forall|q: int| !(0 <= q < kept.len() && lookup(tv, #[trigger] kept[q]) is None));
        }
        return Err(ResolveError::EmptyCountrySet);
    }
    proof {
        assert(forall|q: int|
            0 <= q < kept.len() ==> lookup(tv, #[trigger] kept[q]) == Some(numerics@[q]));
        assert(numerics@ =~= kept.map_values(|t: Seq<char>| lookup(tv, t)->Some_0));
    }
    Ok((alphas, numerics))
}

/// Normalization absorbs a prior upper-casing of the token.
proof fn lemma_normalize_upper(tok: Seq<char>)
    ensures
        normalize(spec_upper(tok)) == normalize(tok),
{
    crate::strutil::lemma_trim_upper(tok);
    crate::strutil::lemma_upper_idempotent(spec_trim(tok));
}

proof fn lemma_kept_tokens_upper(tokens: Seq<Seq<char>>)
    ensures
        kept_tokens(tokens.map_values(|t: Seq<char>| spec_upper(t))) == kept_tokens(tokens),
    decreases tokens.len(),
{
    let up = tokens.map_values(|t: Seq<char>| spec_upper(t));
    if tokens.len() > 0 {
        lemma_kept_tokens_upper(tokens.drop_last());
        assert(up.drop_last() =~= tokens.drop_last().map_values(|t: Seq<char>| spec_upper(t)));
        assert(up.last() == spec_upper(tokens.last()));
        lemma_normalize_upper(tokens.last());
    } else {
        assert(up =~= tokens);
    }
}

/// Resolution is case-insensitive: upper-casing the caller's codes
/// changes nothing, so lower-case input resolves as upper-case does.
pub proof fn lemma_resolve_case_insensitive(tokens: Seq<Seq<char>>, table: Seq<(Seq<char>, u16)>)
    ensures
        spec_resolve(tokens.map_values(|t: Seq<char>| spec_upper(t)), table) == spec_resolve(
            tokens,
            table,
        ),
{
    lemma_kept_tokens_upper(tokens);
}

/// Resolution of a whole comma-separated argument is case-insensitive.
pub proof fn lemma_resolve_arg_case_insensitive(arg: Seq<char>, table: Seq<(Seq<char>, u16)>)
    ensures
        spec_resolve(spec_split(spec_upper(arg), ','), table) == spec_resolve(
            spec_split(arg, ','),
            table,
        ),
{
    crate::strutil::lemma_split_upper(arg, ',');
    lemma_resolve_case_insensitive(spec_split(arg, ','), table);
}

} // verus!

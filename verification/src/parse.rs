//! Parsing of the stored rule texts: a five-field cron expression such as
//! "0 9 2 * *", and a wall-clock time such as "22:00" for the quiet-hours
//! bounds. Each parser's result is pinned to a spec-level grammar.

use vstd::prelude::*;

use crate::cron::CronExpr;
use crate::cron::CronField;
use crate::cron::field_in_range;
use crate::cron::wf_cron;

verus! {

/// The byte value of the space separator.
pub open spec fn is_space(c: u8) -> bool {
    c == 32
}

pub open spec fn is_digit(c: u8) -> bool {
    48 <= c <= 57
}

/// Split on single spaces, keeping empty tokens: the list of tokens whose
/// join with one space between each is the input.
pub open spec fn spec_split(s: Seq<u8>) -> Seq<Seq<u8>>
    decreases s.len(),
{
    if s.len() == 0 {
        seq![Seq::<u8>::empty()]
    } else {
        let rest = spec_split(s.drop_first());
        if is_space(s[0]) {
            seq![Seq::<u8>::empty()].add(rest)
        } else {
            seq![seq![s[0]].add(rest[0])].add(rest.drop_first())
        }
    }
}

pub proof fn lemma_split_nonempty(s: Seq<u8>)
    ensures
        spec_split(s).len() >= 1,
    decreases s.len(),
{
    if s.len() > 0 {
        lemma_split_nonempty(s.drop_first());
    }
}

/// Appending one byte either extends the final token or, for a space,
/// starts a new empty one.
pub proof fn lemma_split_snoc(x: Seq<u8>, c: u8)
    ensures
        is_space(c) ==> spec_split(x.push(c)) == spec_split(x).push(Seq::<u8>::empty()),
        !is_space(c) ==> spec_split(x.push(c)) == spec_split(x).update(
            spec_split(x).len() - 1,
            spec_split(x).last().push(c),
        ),
    decreases x.len(),
{
    lemma_split_nonempty(x);
    let sp = spec_split(x);
    let sp2 = spec_split(x.push(c));
    if x.len() == 0 {
        assert(x.push(c).drop_first() =~= x);
        if is_space(c) {
            assert(sp2 =~~= sp.push(Seq::<u8>::empty()));
        } else {
            assert(sp2 =~~= sp.update(sp.len() - 1, sp.last().push(c)));
        }
    } else {
        let xd = x.drop_first();
        lemma_split_snoc(xd, c);
        lemma_split_nonempty(xd);
        assert(x.push(c).drop_first() =~= xd.push(c));
        let rest = spec_split(xd);
        let restc = spec_split(xd.push(c));
        if is_space(c) {
            assert(restc == rest.push(Seq::<u8>::empty()));
            if is_space(x[0]) {
                assert(sp2 =~~= sp.push(Seq::<u8>::empty()));
            } else {
                assert(restc[0] == rest[0]);
                assert(restc.drop_first() =~~= rest.drop_first().push(Seq::<u8>::empty()));
                assert(sp2 =~~= sp.push(Seq::<u8>::empty()));
            }
        } else {
            assert(restc == rest.update(rest.len() - 1, rest.last().push(c)));
            if is_space(x[0]) {
                assert(sp2 =~~= sp.update(sp.len() - 1, sp.last().push(c)));
            } else {
                if rest.len() == 1 {
                    assert(restc[0] == rest[0].push(c));
                    assert(seq![x[0]].add(rest[0].push(c)) =~= seq![x[0]].add(rest[0]).push(c));
                    assert(sp2 =~~= sp.update(sp.len() - 1, sp.last().push(c)));
                } else {
                    assert(restc[0] == rest[0]);
                    assert(restc.drop_first() =~~= rest.drop_first().update(
                        rest.len() - 2,
                        rest.last().push(c),
                    ));
                    assert(sp2 =~~= sp.update(sp.len() - 1, sp.last().push(c)));
                }
            }
        }
    }
}

/// The views of a list of byte vectors.
pub open spec fn views_of(ts: Seq<Vec<u8>>) -> Seq<Seq<u8>> {
    Seq::new(ts.len(), |i: int| ts[i]@)
}

/// Split a byte string on spaces.
fn split_spaces(s: &[u8]) -> (r: Vec<Vec<u8>>)
    ensures
        views_of(r@) == spec_split(s@),
{
    let n = s.len();
    let mut toks: Vec<Vec<u8>> = Vec::new();
    let mut cur: Vec<u8> = Vec::new();
    let mut i: usize = 0;
    while i < n
        invariant
            i <= n,
            n == s@.len(),
            views_of(toks@).push(cur@) == spec_split(s@.take(i as int)),
        decreases n - i,
    {
        let c = s[i];
        proof {
            assert(s@.take(i as int + 1) =~= s@.take(i as int).push(s@[i as int]));
            lemma_split_snoc(s@.take(i as int), s@[i as int]);
            lemma_split_nonempty(s@.take(i as int));
        }
        if c == 32 {
            let ghost prev_toks = toks@;
            let ghost prev_cur = cur@;
            toks.push(cur);
            cur = Vec::new();
            proof {
                assert(views_of(toks@).push(cur@) =~~= spec_split(s@.take(i as int)).push(
                    Seq::<u8>::empty(),
                ));
            }
        } else {
            let ghost prev_cur = cur@;
            cur.push(c);
            proof {
                let old_sp = spec_split(s@.take(i as int));
                assert(views_of(toks@).push(prev_cur) == old_sp);
                assert(old_sp.last() == prev_cur);
                assert(views_of(toks@).push(cur@) =~~= old_sp.update(
                    old_sp.len() - 1,
                    prev_cur.push(c),
                ));
            }
        }
        i = i + 1;
    }
    proof {
        assert(s@.take(n as int) =~= s@);
    }
    toks.push(cur);
    proof {
        assert(views_of(toks@) =~~= spec_split(s@));
    }
    toks
}

/// The number a run of decimal digits denotes.
pub open spec fn spec_digits_val(tok: Seq<u8>) -> int
    decreases tok.len(),
{
    if tok.len() == 0 {
        0
    } else {
        spec_digits_val(tok.drop_last()) * 10 + (tok.last() - 48)
    }
}

pub open spec fn all_digits(tok: Seq<u8>) -> bool {
    forall|k: int| 0 <= k < tok.len() ==> is_digit(#[trigger] tok[k])
}

/// One cron field: a sole `*`, or one or two decimal digits whose value
/// lies in the field's range.
pub open spec fn spec_parse_field(tok: Seq<u8>, lo: int, hi: int) -> Option<CronField> {
    if tok == seq![42u8] {
        Some(CronField::Any)
    } else if 1 <= tok.len() <= 2 && all_digits(tok) && lo <= spec_digits_val(tok) <= hi {
        Some(CronField::Only(spec_digits_val(tok) as u8))
    } else {
        None
    }
}

fn parse_field(tok: &Vec<u8>, lo: u8, hi: u8) -> (r: Option<CronField>)
    requires
        hi <= 99,
    ensures
        r == spec_parse_field(tok@, lo as int, hi as int),
        match r {
            Some(f) => field_in_range(f, lo as int, hi as int),
            None => true,
        },
{
    if tok.len() == 1 && tok[0] == 42 {
        proof {
            assert(tok@ =~= seq![42u8]);
        }
        return Some(CronField::Any);
    }
    proof {
        if tok@ == seq![42u8] {
            assert(tok@.len() == 1 && tok@[0] == 42u8);
            assert(false);
        }
    }
    if tok.len() == 1 {
        let c = tok[0];
        if 48 <= c && c <= 57 {
            proof {
                assert(tok@.drop_last() =~= Seq::<u8>::empty());
                assert(spec_digits_val(Seq::<u8>::empty()) == 0);
                assert(tok@.last() == c);
                assert(spec_digits_val(tok@) == c - 48);
            }
            let v = c - 48;
            if lo <= v && v <= hi {
                return Some(CronField::Only(v));
            }
        }
        return None;
    }
    if tok.len() == 2 {
        let c0 = tok[0];
        let c1 = tok[1];
        if 48 <= c0 && c0 <= 57 && 48 <= c1 && c1 <= 57 {
            proof {
                assert(tok@.drop_last() =~= seq![tok@[0]]);
                assert(seq![tok@[0]].drop_last() =~= Seq::<u8>::empty());
                assert(spec_digits_val(Seq::<u8>::empty()) == 0);
                assert(seq![tok@[0]].last() == c0);
                assert(spec_digits_val(seq![tok@[0]]) == c0 - 48);
                assert(tok@.last() == c1);
                assert(spec_digits_val(tok@) == (c0 - 48) * 10 + (c1 - 48));
            }
            let v = (c0 - 48) * 10 + (c1 - 48);
            if lo <= v && v <= hi {
                return Some(CronField::Only(v));
            }
        }
        return None;
    }
    None
}

/// Why a cron expression text was rejected.
#[derive(Clone, Copy, PartialEq, Eq, Structural, Debug)]
pub enum CronParseError {
    /// The text does not consist of exactly five space-separated fields.
    WrongFieldCount,
    /// A field is neither `*` nor an in-range one- or two-digit number.
    InvalidField,
}

/// The grammar of a cron expression text: exactly five space-separated
/// fields, each a wildcard or an in-range value.
pub open spec fn spec_parse_cron(s: Seq<u8>) -> Option<CronExpr> {
    let toks = spec_split(s);
    if toks.len() == 5 {
        match (
            spec_parse_field(toks[0], 0, 59),
            spec_parse_field(toks[1], 0, 23),
            spec_parse_field(toks[2], 1, 31),
            spec_parse_field(toks[3], 1, 12),
            spec_parse_field(toks[4], 0, 6),
        ) {
            (Some(minute), Some(hour), Some(day_of_month), Some(month), Some(day_of_week)) => Some(
                CronExpr { minute, hour, day_of_month, month, day_of_week },
            ),
            _ => None,
        }
    } else {
        None
    }
}

/// Parse a cron expression text such as "0 9 2 * *".
pub fn parse_cron(s: &[u8]) -> (r: Result<CronExpr, CronParseError>)
    ensures
        match r {
            Ok(e) => spec_parse_cron(s@) == Some(e) && wf_cron(e),
            Err(CronParseError::WrongFieldCount) => spec_split(s@).len() != 5,
            Err(CronParseError::InvalidField) => spec_split(s@).len() == 5 && spec_parse_cron(
                s@,
            ) is None,
        },
{
    let toks = split_spaces(s);
    if toks.len() != 5 {
        return Err(CronParseError::WrongFieldCount);
    }
    proof {
        assert(toks@[0]@ == spec_split(s@)[0]);
        assert(toks@[1]@ == spec_split(s@)[1]);
        assert(toks@[2]@ == spec_split(s@)[2]);
        assert(toks@[3]@ == spec_split(s@)[3]);
        assert(toks@[4]@ == spec_split(s@)[4]);
    }
    let minute = parse_field(&toks[0], 0, 59);
    let hour = parse_field(&toks[1], 0, 23);
    let day_of_month = parse_field(&toks[2], 1, 31);
    let month = parse_field(&toks[3], 1, 12);
    let day_of_week = parse_field(&toks[4], 0, 6);
    match (minute, hour, day_of_month, month, day_of_week) {
        (Some(minute), Some(hour), Some(day_of_month), Some(month), Some(day_of_week)) => Ok(
            CronExpr { minute, hour, day_of_month, month, day_of_week },
        ),
        _ => Err(CronParseError::InvalidField),
    }
}

/// The grammar of a quiet-hours bound: "HH:MM" with a valid wall-clock
/// value, denoted as a minute of the day.
pub open spec fn spec_parse_hhmm(s: Seq<u8>) -> Option<int> {
    if s.len() == 5 && is_digit(s[0]) && is_digit(s[1]) && s[2] == 58 && is_digit(s[3]) && is_digit(
        s[4],
    ) {
        let h = (s[0] - 48) * 10 + (s[1] - 48);
        let m = (s[3] - 48) * 10 + (s[4] - 48);
        if h < 24 && m < 60 {
            Some(h * 60 + m)
        } else {
            None
        }
    } else {
        None
    }
}

/// Parse a quiet-hours bound such as "22:00" into a minute of the day.
pub fn parse_hhmm(s: &[u8]) -> (r: Option<u16>)
    ensures
        match r {
            Some(v) => spec_parse_hhmm(s@) == Some(v as int) && v < 1440,
            None => spec_parse_hhmm(s@) is None,
        },
{
    if s.len() != 5 {
        return None;
    }
    let c0 = s[0];
    let c1 = s[1];
    let c2 = s[2];
    let c3 = s[3];
    let c4 = s[4];
    if !(48 <= c0 && c0 <= 57 && 48 <= c1 && c1 <= 57 && c2 == 58 && 48 <= c3 && c3 <= 57 && 48
        <= c4 && c4 <= 57) {
        return None;
    }
    let h: u16 = (c0 - 48) as u16 * 10 + (c1 - 48) as u16;
    let m: u16 = (c3 - 48) as u16 * 10 + (c4 - 48) as u16;
    if h < 24 && m < 60 {
        Some(h * 60 + m)
    } else {
        None
    }
}

} // verus!

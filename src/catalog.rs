use vstd::prelude::*;

use crate::text::{chars_of, lines, lines_of, split_chars, split_on, string_of};

verus! {

pub open spec fn is_digit(c: char) -> bool {
    '0' <= c && c <= '9'
}

pub open spec fn all_digits(s: Seq<char>) -> bool {
    forall|i: int| 0 <= i < s.len() ==> is_digit(#[trigger] s[i])
}

/// The number that a run of decimal digits writes.
pub open spec fn digits_value(s: Seq<char>) -> nat
    decreases s.len(),
{
    if s.len() == 0 {
        0
    } else {
        digits_value(s.drop_last()) * 10 + (s.last() as nat - '0' as nat) as nat
    }
}

/// The digits after an optional leading `+`.
pub open spec fn unsigned_digits(s: Seq<char>) -> Seq<char> {
    if s.len() > 0 && s[0] == '+' {
        s.drop_first()
    } else {
        s
    }
}

/// What `u16::from_str` gives: an optional `+`, then at least one decimal
/// digit, with a value that fits.
pub open spec fn parse_u16_spec(s: Seq<char>) -> Option<u16> {
    let d = unsigned_digits(s);
    if d.len() > 0 && all_digits(d) && digits_value(d) <= u16::MAX {
        Some(digits_value(d) as u16)
    } else {
        None
    }
}

proof fn lemma_digits_value_grows(s: Seq<char>, i: int)
    requires
        0 <= i <= s.len(),
        all_digits(s),
    ensures
        digits_value(s.take(i)) <= digits_value(s),
    decreases s.len() - i,
{
    if i < s.len() {
        lemma_digits_value_grows(s, i + 1);
        assert(s.take(i + 1).drop_last() =~= s.take(i));
    } else {
        assert(s.take(i) =~= s);
    }
}

/// Parses an unsigned 16-bit decimal number.
pub fn parse_u16(s: &Vec<char>) -> (r: Option<u16>)
    ensures
        r == parse_u16_spec(s@),
{
    let start: usize = if s.len() > 0 && s[0] == '+' {
        1
    } else {
        0
    };
    let ghost d = unsigned_digits(s@);
    assert(d =~= s@.subrange(start as int, s.len() as int));
    if start >= s.len() {
        return None;
    }
    let mut acc: u32 = 0;
    let mut i: usize = start;
    while i < s.len()
        invariant
            start <= i <= s.len(),
            start < s.len(),
            d == unsigned_digits(s@),
            d == s@.subrange(start as int, s.len() as int),
            all_digits(d.take(i - start)),
            acc == digits_value(d.take(i - start)),
            acc <= u16::MAX,
        decreases s.len() - i,
    {
        let c = s[i];
        let ghost k = i - start;
        assert(d[k] == c);
        if !('0' <= c && c <= '9') {
            assert(!all_digits(d));
            return None;
        }
        assert(d.take(k + 1).drop_last() =~= d.take(k));
        acc = acc * 10 + (c as u32 - '0' as u32);
        if acc > 65535 {
            proof {
                if all_digits(d) {
                    lemma_digits_value_grows(d, k + 1);
                }
            }
            return None;
        }
        assert(all_digits(d.take(k + 1)));
        i = i + 1;
    }
    assert(d.take(i - start) =~= d);
    Some(acc as u16)
}

/// Why a catalog line is refused.
#[derive(Clone, Copy, Debug, PartialEq, Eq, Structural)]
pub enum CatalogError {
    /// Fewer than three comma-separated fields.
    MissingField,
    /// The first field is not an unsigned 16-bit number.
    BadId,
    /// The third field is neither `0` nor `1`.
    BadPremiumFlag,
}

/// The error for a catalog line `id,slug,premiumFlag`, if it has one.
pub open spec fn line_error(l: Seq<char>) -> Option<CatalogError> {
    let f = split_on(l, ',');
    if f.len() < 3 {
        Some(CatalogError::MissingField)
    } else if parse_u16_spec(f[0]) is None {
        Some(CatalogError::BadId)
    } else if f[2] != seq!['0'] && f[2] != seq!['1'] {
        Some(CatalogError::BadPremiumFlag)
    } else {
        None
    }
}

/// One catalog entry: its id, the slug that names it remotely, and whether it
/// is reserved to premium accounts.
#[derive(Clone, Debug, PartialEq, Eq)]
pub struct Problem {
    pub id: u16,
    pub slug: String,
    pub is_premium: bool,
}

/// `p` is the record that a valid catalog line `l` describes.
pub open spec fn describes(p: Problem, l: Seq<char>) -> bool {
    let f = split_on(l, ',');
    &&& parse_u16_spec(f[0]) == Some(p.id)
    &&& p.slug@ == f[1]
    &&& p.is_premium == (f[2] == seq!['1'])
}

impl Problem {
    /// Reads one catalog line `id,slug,premiumFlag`; fields after the third are
    /// ignored.
    pub fn try_new(line: &str) -> (r: Result<Problem, CatalogError>)
        ensures
            r matches Ok(p) ==> line_error(line@) is None && describes(p, line@),
            r matches Err(e) ==> line_error(line@) == Some(e),
    {
        let chars = chars_of(line);
        let fields = split_chars(&chars, ',');
        let ghost f = split_on(line@, ',');
        if fields.len() < 3 {
            return Err(CatalogError::MissingField);
        }
        assert(fields@[0]@ == f[0] && fields@[1]@ == f[1] && fields@[2]@ == f[2]);
        let id = match parse_u16(&fields[0]) {
            Some(id) => id,
            None => {
                return Err(CatalogError::BadId);
            },
        };
        let flag = &fields[2];
        let is_premium = if flag.len() == 1 && flag[0] == '0' {
            assert(flag@ =~= seq!['0']);
            false
        } else if flag.len() == 1 && flag[0] == '1' {
            assert(flag@ =~= seq!['1']);
            true
        } else {
            assert(flag@ != seq!['0'] && flag@ != seq!['1']) by {
                if flag@ == seq!['0'] || flag@ == seq!['1'] {
                    assert(flag@.len() == 1);
                }
            }
            return Err(CatalogError::BadPremiumFlag);
        };
        let slug = string_of(&fields[1]);
        Ok(Problem { id, slug, is_premium })
    }

    /// Reads one catalog line that is known to be valid.
    pub fn new(line: &str) -> (r: Problem)
        requires
            line_error(line@) is None,
        ensures
            describes(r, line@),
    {
        match Problem::try_new(line) {
            Ok(p) => p,
            Err(_) => vstd::pervasive::unreached(),
        }
    }
}

/// Reads a whole catalog, one record per line; on the first refused line,
/// its index and why.
pub fn parse_catalog(content: &str) -> (r: Result<Vec<Problem>, (usize, CatalogError)>)
    ensures
        r matches Ok(v) ==> v.len() == lines_of(content@).len() && forall|i: int|
            0 <= i < v.len() ==> line_error(lines_of(content@)[i]) is None && describes(
                #[trigger] v@[i],
                lines_of(content@)[i],
            ),
        r matches Err((k, e)) ==> k < lines_of(content@).len() && line_error(lines_of(content@)[k as int])
            == Some(e) && forall|i: int| 0 <= i < k ==> line_error(#[trigger] lines_of(content@)[i]) is None,
{
    let chars = chars_of(content);
    let ls = lines(&chars);
    let ghost lv = lines_of(content@);
    let mut problems: Vec<Problem> = Vec::new();
    let mut i: usize = 0;
    while i < ls.len()
        invariant
            i <= ls.len(),
            ls@.map_values(|x: Vec<char>| x@) == lv,
            lv == lines_of(content@),
            problems.len() == i,
            forall|j: int| 0 <= j < i ==> line_error(#[trigger] lv[j]) is None,
            forall|j: int| 0 <= j < i ==> describes(#[trigger] problems@[j], lv[j]),
        decreases ls.len() - i,
    {
        assert(lv[i as int] == ls@[i as int]@);
        let line = string_of(&ls[i]);
        match Problem::try_new(line.as_str()) {
            Ok(p) => {
                let ghost before = problems@;
                problems.push(p);
                assert forall|j: int| 0 <= j < i + 1 implies describes(#[trigger] problems@[j], lv[j]) by {
                    if j < i {
                        assert(problems@[j] == before[j]);
                    }
                }
            },
            Err(e) => {
                return Err((i, e));
            },
        }
        i = i + 1;
    }
    assert forall|j: int| 0 <= j < problems.len() implies line_error(lines_of(content@)[j]) is None
        && describes(#[trigger] problems@[j], lines_of(content@)[j]) by {
        assert(line_error(lv[j]) is None);
    }
    Ok(problems)
}

} // verus!

//! Record canonicalization: each raw record carries its identifying fields
//! as strings; canonicalization strips spaces, trims, lower-cases, resolves
//! the null marker, validates the ABN checksum and discards generic domains,
//! yielding the `(kind, value)` pairs the graph is built from.

use vstd::prelude::*;
use vstd::string::StrSliceExecFns;
use vstd::string::StringExecFns;

use crate::node::str_eq;

verus! {

/// What `str::trim` returns for these characters: the text with leading and
/// trailing whitespace removed.
pub uninterp spec fn trim_of(s: Seq<char>) -> Seq<char>;

/// What `str::to_lowercase` returns for these characters.
pub uninterp spec fn lower_of(s: Seq<char>) -> Seq<char>;

/// Relies on `str::trim`: removes whitespace from both ends; the result
/// depends on the characters alone.
#[verifier::external_body]
fn trim_str(s: &str) -> (r: String)
    ensures
        r@ == trim_of(s@),
{
    s.trim().to_owned()
}

/// Relies on `str::to_lowercase`: the lowercase equivalent of the text; the
/// result depends on the characters alone.
#[verifier::external_body]
fn lowercase_str(s: &str) -> (r: String)
    ensures
        r@ == lower_of(s@),
        s@.len() == 0 ==> r@.len() == 0,
{
    s.to_lowercase()
}

/// The characters with every space removed.
pub open spec fn despace(s: Seq<char>) -> Seq<char>
    decreases s.len(),
{
    if s.len() == 0 {
        Seq::empty()
    } else {
        despace(s.drop_last()) + if s.last() == ' ' {
            Seq::<char>::empty()
        } else {
            seq![s.last()]
        }
    }
}

/// Extending the text by one character extends its despaced form.
proof fn lemma_despace_step(s: Seq<char>, i: int)
    requires
        0 <= i < s.len(),
    ensures
        despace(s.subrange(0, i + 1)) == despace(s.subrange(0, i)) + if s[i] == ' ' {
            Seq::<char>::empty()
        } else {
            seq![s[i]]
        },
{
    assert(s.subrange(0, i + 1).drop_last() =~= s.subrange(0, i));
    assert(s.subrange(0, i + 1).last() == s[i]);
}

/// Removes every space character.
fn despace_str(s: &str) -> (r: String)
    ensures
        r@ == despace(s@),
{
    let len = s.unicode_len();
    let mut r = String::new();
    let mut i: usize = 0;
    while i < len
        invariant
            0 <= i <= len,
            len == s@.len(),
            r@ == despace(s@.subrange(0, i as int)),
        decreases len - i,
    {
        let c = s.get_char(i);
        if !(c == ' ') {
            let piece = s.substring_char(i, i + 1);
            r.append(piece);
            proof {
                assert(piece@ =~= seq![s@[i as int]]);
            }
        }
        proof {
            lemma_despace_step(s@, i as int);
        }
        i += 1;
    }
    proof {
        assert(s@.subrange(0, len as int) =~= s@);
    }
    r
}

/// The canonical form of a raw field: the null marker and the empty string
/// mean absence; any other value has its spaces removed, is trimmed of other
/// surrounding whitespace, and is lower-cased.
pub open spec fn canon_of(s: Seq<char>) -> Option<Seq<char>> {
    if s == "NULL"@ || s.len() == 0 {
        None
    } else {
        Some(lower_of(trim_of(despace(s))))
    }
}

/// Canonicalizes one raw field.
fn canonicalise(s: &str) -> (r: Option<String>)
    ensures
        match r {
            Some(out) => canon_of(s@) == Some(out@),
            None => canon_of(s@) is None,
        },
{
    if str_eq(s, "NULL") || s.unicode_len() == 0 {
        None
    } else {
        let d = despace_str(s);
        let t = trim_str(d.as_str());
        let l = lowercase_str(t.as_str());
        Some(l)
    }
}

/// Whether the character is a decimal digit.
pub open spec fn is_digit(c: char) -> bool {
    48 <= c as u32 <= 57
}

/// The numeric value of a digit character.
pub open spec fn digit_val(c: char) -> int {
    c as u32 - 48
}

/// The digit characters of the text, in order.
pub open spec fn digits_of(s: Seq<char>) -> Seq<char>
    decreases s.len(),
{
    if s.len() == 0 {
        Seq::empty()
    } else {
        digits_of(s.drop_last()) + if is_digit(s.last()) {
            seq![s.last()]
        } else {
            Seq::<char>::empty()
        }
    }
}

/// Extending the text by one character extends its digit sequence.
proof fn lemma_digits_step(s: Seq<char>, i: int)
    requires
        0 <= i < s.len(),
    ensures
        digits_of(s.subrange(0, i + 1)) == digits_of(s.subrange(0, i)) + if is_digit(s[i]) {
            seq![s[i]]
        } else {
            Seq::<char>::empty()
        },
{
    assert(s.subrange(0, i + 1).drop_last() =~= s.subrange(0, i));
    assert(s.subrange(0, i + 1).last() == s[i]);
}

/// The checksum weight of each digit position.
pub open spec fn weight_at(i: int) -> int {
    if i == 0 {
        10
    } else if i == 1 {
        1
    } else if i == 2 {
        3
    } else if i == 3 {
        5
    } else if i == 4 {
        7
    } else if i == 5 {
        9
    } else if i == 6 {
        11
    } else if i == 7 {
        13
    } else if i == 8 {
        15
    } else if i == 9 {
        17
    } else {
        19
    }
}

/// The checksum weight of a digit position.
fn abn_weight(k: usize) -> (w: u32)
    requires
        k < 11,
    ensures
        w as int == weight_at(k as int),
        w <= 19,
{
    if k == 0 {
        10
    } else if k == 1 {
        1
    } else if k == 2 {
        3
    } else if k == 3 {
        5
    } else if k == 4 {
        7
    } else if k == 5 {
        9
    } else if k == 6 {
        11
    } else if k == 7 {
        13
    } else if k == 8 {
        15
    } else if k == 9 {
        17
    } else {
        19
    }
}

/// The weighted checksum over the first `k` digits, with one subtracted from
/// the leading digit before weighting.
pub open spec fn abn_sum(ds: Seq<char>, k: int) -> int
    decreases k,
{
    if k <= 0 {
        0
    } else {
        abn_sum(ds, k - 1) + if k - 1 == 0 {
            (digit_val(ds[0]) - 1) * weight_at(0)
        } else {
            digit_val(ds[k - 1]) * weight_at(k - 1)
        }
    }
}

/// The validated form of a canonical ABN field: the value must be eleven
/// characters long, its leading digit may not be zero, and the weighted sum
/// of its digits (ignoring any non-digit characters, and considering at most
/// eleven digits) must be divisible by 89; what is returned is the digit
/// characters alone.
pub open spec fn abn_canon(s: Seq<char>) -> Option<Seq<char>> {
    if s.len() != 11 {
        None
    } else {
        let ds = digits_of(s);
        if ds.len() > 0 && digit_val(ds[0]) == 0 {
            None
        } else {
            let m = if ds.len() <= 11 {
                ds.len() as int
            } else {
                11
            };
            if abn_sum(ds, m) % 89 == 0 {
                Some(ds)
            } else {
                None
            }
        }
    }
}

/// Validates an already-canonicalized ABN value against its checksum.
pub fn validate_abn(s: String) -> (r: Option<String>)
    ensures
        match r {
            Some(out) => abn_canon(s@) == Some(out@),
            None => abn_canon(s@) is None,
        },
{
    let slen = s.as_str().unicode_len();
    if slen != 11 {
        return None;
    }
    let mut digits_str = String::new();
    let mut vals: Vec<u32> = Vec::new();
    let mut i: usize = 0;
    while i < slen
        invariant
            0 <= i <= slen,
            slen == s@.len(),
            digits_str@ == digits_of(s@.subrange(0, i as int)),
            vals@.len() == digits_str@.len(),
            forall|k: int|
                0 <= k < vals@.len() ==> #[trigger] vals@[k] as int == digit_val(digits_str@[k])
                    && 0 <= vals@[k] <= 9,
        decreases slen - i,
    {
        let c = s.as_str().get_char(i);
        let cu = c as u32;
        if 48 <= cu && cu <= 57 {
            let piece = s.as_str().substring_char(i, i + 1);
            digits_str.append(piece);
            vals.push(cu - 48);
            proof {
                assert(piece@ =~= seq![s@[i as int]]);
            }
        }
        proof {
            lemma_digits_step(s@, i as int);
        }
        i += 1;
    }
    proof {
        assert(s@.subrange(0, slen as int) =~= s@);
    }
    let ghost ds = digits_of(s@);
    if vals.len() > 0 && vals[0] == 0 {
        // the checksum subtracts one from the leading digit, so a leading
        // zero can never satisfy it; reject it outright
        return None;
    }
    let m = if vals.len() <= 11 {
        vals.len()
    } else {
        11
    };
    let mut sum: u32 = 0;
    let mut k: usize = 0;
    while k < m
        invariant
            0 <= k <= m,
            m <= vals@.len(),
            m <= 11,
            m == (if ds.len() <= 11 {
                ds.len() as int
            } else {
                11
            }),
            vals@.len() == ds.len(),
            digits_str@ == ds,
            forall|j: int|
                0 <= j < vals@.len() ==> #[trigger] vals@[j] as int == digit_val(ds[j]) && 0
                    <= vals@[j] <= 9,
            vals@.len() > 0 ==> vals@[0] >= 1,
            sum as int == abn_sum(ds, k as int),
            sum <= 171 * k,
        decreases m - k,
    {
        let d = vals[k];
        let w = abn_weight(k);
        proof {
            assert(0 <= d <= 9 && 0 <= w <= 19);
            assert(d * w <= 171) by (nonlinear_arith)
                requires
                    0 <= d <= 9,
                    0 <= w <= 19,
            ;
        }
        let term: u32 = if k == 0 {
            (d - 1) * w
        } else {
            d * w
        };
        sum = sum + term;
        k += 1;
    }
    if sum % 89 == 0 {
        Some(digits_str)
    } else {
        None
    }
}

/// A raw input record, as its source file carries it: every identifying
/// field still a string, plus the flag marking a generic email domain.
#[derive(Debug)]
pub struct Record {
    pub id: String,
    pub group_id: String,
    pub account_number: String,
    pub abn: String,
    pub domain: String,
    pub generic_domain: bool,
}

/// The validated form of a raw ABN field: canonicalize, then checksum.
pub open spec fn abn_of(s: Seq<char>) -> Option<Seq<char>> {
    match canon_of(s) {
        Some(c) => abn_canon(c),
        None => None,
    }
}

/// The entry a tagged optional value contributes to the node-value list.
pub open spec fn entry(tag: Seq<char>, o: Option<Seq<char>>) -> Seq<(Seq<char>, Seq<char>)> {
    match o {
        Some(v) => seq![(tag, v)],
        None => Seq::empty(),
    }
}

impl Record {
    /// The canonical group id, if present.
    pub fn group_id(&self) -> (r: Option<String>)
        ensures
            match r {
                Some(out) => canon_of(self.group_id@) == Some(out@),
                None => canon_of(self.group_id@) is None,
            },
    {
        canonicalise(self.group_id.as_str())
    }

    /// The canonical account number, if present.
    pub fn account_number(&self) -> (r: Option<String>)
        ensures
            match r {
                Some(out) => canon_of(self.account_number@) == Some(out@),
                None => canon_of(self.account_number@) is None,
            },
    {
        canonicalise(self.account_number.as_str())
    }

    /// The canonical, checksum-validated ABN, if present and valid.
    pub fn abn(&self) -> (r: Option<String>)
        ensures
            match r {
                Some(out) => abn_of(self.abn@) == Some(out@),
                None => abn_of(self.abn@) is None,
            },
    {
        let c = self.abn.as_str();
        match canonicalise(c) {
            Some(v) => validate_abn(v),
            None => None,
        }
    }

    /// The canonical email domain, unless the record marks it generic.
    pub fn domain(&self) -> (r: Option<String>)
        ensures
            self.generic_domain ==> r is None,
            !self.generic_domain ==> match r {
                Some(out) => canon_of(self.domain@) == Some(out@),
                None => canon_of(self.domain@) is None,
            },
    {
        if self.generic_domain {
            return None;
        }
        canonicalise(self.domain.as_str())
    }

    /// The record's tagged node values, in the fixed kind order, with absent
    /// fields left out.
    pub fn node_values(&self) -> (r: Vec<(&str, String)>)
        ensures
            r@.map_values(|p: (&str, String)| (p.0@, p.1@)) == entry(
                "group_id"@,
                canon_of(self.group_id@),
            ) + entry("account_number"@, canon_of(self.account_number@)) + entry(
                "abn"@,
                abn_of(self.abn@),
            ) + entry(
                "domain"@,
                if self.generic_domain {
                    None
                } else {
                    canon_of(self.domain@)
                },
            ),
    {
        let mut values: Vec<(&str, String)> = Vec::new();
        if let Some(group_id) = self.group_id() {
            values.push(("group_id", group_id));
        }
        if let Some(account_number) = self.account_number() {
            values.push(("account_number", account_number));
        }
        if let Some(abn) = self.abn() {
            values.push(("abn", abn));
        }
        if let Some(domain) = self.domain() {
            values.push(("domain", domain));
        }
        proof {
            assert(values@.map_values(|p: (&str, String)| (p.0@, p.1@)) =~= entry(
                "group_id"@,
                canon_of(self.group_id@),
            ) + entry("account_number"@, canon_of(self.account_number@)) + entry(
                "abn"@,
                abn_of(self.abn@),
            ) + entry(
                "domain"@,
                if self.generic_domain {
                    None
                } else {
                    canon_of(self.domain@)
                },
            ));
        }
        values
    }
}

} // verus!

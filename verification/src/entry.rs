//! The shadow record type and the line parser.
//!
//! A well-formed line holds nine colon-separated fields; each field is
//! trimmed before interpretation. A numeric field that is empty, malformed or
//! out of range takes its sentinel (-1 for the signed fields, 0 for `flag`)
//! instead of failing the record; only a line with fewer than nine fields is
//! rejected, as [`ParseError::MalformedLine`].

use vstd::prelude::*;

use crate::text::i64_field;
use crate::text::parse_i64_spec;
use crate::text::parse_u64_spec;
use crate::text::parse_i64_field;
use crate::text::parse_u64_field;
use crate::text::split_colon;
use crate::text::split_on;
use crate::text::trim_spec;
use crate::text::trim_str;
use crate::text::u64_field;
use crate::text::views_of;

verus! {

/// Why a line could not be parsed.
#[derive(Debug, Clone, Copy, PartialEq, Eq, Structural)]
pub enum ParseError {
    /// The line has fewer than nine colon-separated fields.
    MalformedLine,
}

/// One entry of the shadow database. Days are counted from 1970-01-01.
#[derive(Debug)]
pub struct ShadowEntry {
    /// Login name
    pub name: String,
    /// Encrypted password or status marker
    pub passwd: String,
    /// Date of last password change, in days; -1 when absent
    pub last_change: i64,
    /// Minimum number of days between changes; -1 when absent
    pub min: i64,
    /// Maximum number of days between changes; -1 when absent
    pub max: i64,
    /// Days before expiry on which to warn; -1 when absent
    pub warning: i64,
    /// Days after expiry until the account is disabled; -1 when absent
    pub inactivity: i64,
    /// Date of account expiry, in days; -1 when absent
    pub expires: i64,
    /// Reserved field; 0 when absent
    pub flag: u64,
}

/// The mathematical image of a [`ShadowEntry`].
#[verifier::ext_equal]
pub struct SpecShadowEntry {
    pub name: Seq<char>,
    pub passwd: Seq<char>,
    pub last_change: i64,
    pub min: i64,
    pub max: i64,
    pub warning: i64,
    pub inactivity: i64,
    pub expires: i64,
    pub flag: u64,
}

impl View for ShadowEntry {
    type V = SpecShadowEntry;

    open spec fn view(&self) -> SpecShadowEntry {
        SpecShadowEntry {
            name: self.name@,
            passwd: self.passwd@,
            last_change: self.last_change,
            min: self.min,
            max: self.max,
            warning: self.warning,
            inactivity: self.inactivity,
            expires: self.expires,
            flag: self.flag,
        }
    }
}

impl PartialEq for ShadowEntry {
    fn eq(&self, other: &Self) -> (r: bool) {
        let r = self.name == other.name && self.passwd == other.passwd
            && self.last_change == other.last_change && self.min == other.min
            && self.max == other.max && self.warning == other.warning
            && self.inactivity == other.inactivity && self.expires == other.expires
            && self.flag == other.flag;
        proof {
            if r {
                assert(self@ =~= other@);
            }
        }
        r
    }
}

impl vstd::std_specs::cmp::PartialEqSpecImpl for ShadowEntry {
    open spec fn obeys_eq_spec() -> bool {
        true
    }

    open spec fn eq_spec(&self, other: &Self) -> bool {
        self@ == other@
    }
}

/// The trimmed colon-separated fields of a line, in order.
pub open spec fn fields_of(line: Seq<char>) -> Seq<Seq<char>> {
    split_on(line, ':').map_values(|f: Seq<char>| trim_spec(f))
}

/// What parsing a line returns, as a function of the line alone: the record
/// of its first nine fields, or `MalformedLine` when there are fewer.
pub open spec fn parse_line_spec(line: Seq<char>) -> Result<SpecShadowEntry, ParseError> {
    let fs = fields_of(line);
    if fs.len() >= 9 {
        Ok(SpecShadowEntry {
            name: fs[0],
            passwd: fs[1],
            last_change: i64_field(fs[2]),
            min: i64_field(fs[3]),
            max: i64_field(fs[4]),
            warning: i64_field(fs[5]),
            inactivity: i64_field(fs[6]),
            expires: i64_field(fs[7]),
            flag: u64_field(fs[8]),
        })
    } else {
        Err(ParseError::MalformedLine)
    }
}

/// Parse one line of the shadow database into a record.
///
/// Succeeds exactly on lines with at least nine colon-separated fields;
/// the fields are trimmed, assigned by position, and the numeric ones fall
/// back to their sentinels when they do not parse.
pub fn parse_line(line: &str) -> (r: Result<ShadowEntry, ParseError>)
    ensures
        r is Ok <==> fields_of(line@).len() >= 9,
        match r {
            Ok(e) => parse_line_spec(line@) == Ok::<SpecShadowEntry, ParseError>(e@),
            Err(pe) => parse_line_spec(line@) == Err::<SpecShadowEntry, ParseError>(pe),
        },
{
    let parts = split_colon(line);
    proof {
        assert(fields_of(line@).len() == views_of(parts@).len());
    }
    if parts.len() < 9 {
        return Err(ParseError::MalformedLine);
    }
    let name = trim_str(parts[0].as_str()).to_owned();
    let passwd = trim_str(parts[1].as_str()).to_owned();
    let last_change = parse_i64_field(trim_str(parts[2].as_str()));
    let min = parse_i64_field(trim_str(parts[3].as_str()));
    let max = parse_i64_field(trim_str(parts[4].as_str()));
    let warning = parse_i64_field(trim_str(parts[5].as_str()));
    let inactivity = parse_i64_field(trim_str(parts[6].as_str()));
    let expires = parse_i64_field(trim_str(parts[7].as_str()));
    let flag = parse_u64_field(trim_str(parts[8].as_str()));
    let e = ShadowEntry {
        name,
        passwd,
        last_change,
        min,
        max,
        warning,
        inactivity,
        expires,
        flag,
    };
    proof {
        assert forall|k: int| 0 <= k < 9 implies fields_of(line@)[k] == trim_spec(parts@[k]@) by {
            assert(views_of(parts@)[k] == parts@[k]@);
        }
        assert(e@ =~= parse_line_spec(line@)->Ok_0);
    }
    Ok(e)
}

impl ShadowEntry {
    /// Build a record from one line of the shadow database; the line-oriented
    /// decode capability behind the stream operations.
    pub fn from_line(line: &str) -> (r: Result<ShadowEntry, ParseError>)
        ensures
            r is Ok <==> fields_of(line@).len() >= 9,
            match r {
                Ok(e) => parse_line_spec(line@) == Ok::<SpecShadowEntry, ParseError>(e@),
                Err(pe) => parse_line_spec(line@) == Err::<SpecShadowEntry, ParseError>(pe),
            },
    {
        parse_line(line)
    }
}

/// Parsing is deterministic: the result is a function of the line alone, so
/// equal lines always parse to equal records.
pub proof fn lemma_parse_line_deterministic(l1: Seq<char>, l2: Seq<char>)
    requires
        l1 == l2,
    ensures
        parse_line_spec(l1) == parse_line_spec(l2),
{
}

/// On a line with at least nine fields parsing succeeds; every field of the
/// record depends only on its own position, and a numeric field whose text
/// does not parse takes its sentinel while the other fields are untouched.
pub proof fn lemma_lenient_fields(line: Seq<char>)
    requires
        fields_of(line).len() >= 9,
    ensures
        parse_line_spec(line) is Ok,
        parse_line_spec(line)->Ok_0.name == fields_of(line)[0],
        parse_line_spec(line)->Ok_0.passwd == fields_of(line)[1],
        parse_line_spec(line)->Ok_0.last_change == i64_field(fields_of(line)[2]),
        parse_line_spec(line)->Ok_0.min == i64_field(fields_of(line)[3]),
        parse_line_spec(line)->Ok_0.max == i64_field(fields_of(line)[4]),
        parse_line_spec(line)->Ok_0.warning == i64_field(fields_of(line)[5]),
        parse_line_spec(line)->Ok_0.inactivity == i64_field(fields_of(line)[6]),
        parse_line_spec(line)->Ok_0.expires == i64_field(fields_of(line)[7]),
        parse_line_spec(line)->Ok_0.flag == u64_field(fields_of(line)[8]),
        parse_i64_spec(fields_of(line)[2]) is None ==> parse_line_spec(line)->Ok_0.last_change == -1,
        parse_i64_spec(fields_of(line)[3]) is None ==> parse_line_spec(line)->Ok_0.min == -1,
        parse_i64_spec(fields_of(line)[4]) is None ==> parse_line_spec(line)->Ok_0.max == -1,
        parse_i64_spec(fields_of(line)[5]) is None ==> parse_line_spec(line)->Ok_0.warning == -1,
        parse_i64_spec(fields_of(line)[6]) is None ==> parse_line_spec(line)->Ok_0.inactivity
            == -1,
        parse_i64_spec(fields_of(line)[7]) is None ==> parse_line_spec(line)->Ok_0.expires == -1,
        parse_u64_spec(fields_of(line)[8]) is None ==> parse_line_spec(line)->Ok_0.flag == 0,
{
}

/// A line with fewer than nine colon-separated fields is rejected as
/// malformed, never read out of bounds.
pub proof fn lemma_malformed_line(line: Seq<char>)
    requires
        fields_of(line).len() < 9,
    ensures
        parse_line_spec(line) == Err::<SpecShadowEntry, ParseError>(ParseError::MalformedLine),
{
}

} // verus!

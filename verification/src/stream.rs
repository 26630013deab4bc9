//! Enumeration and search over the lines of a shadow database source.
//!
//! The policy here is the lenient one: a line with fewer than nine fields is
//! skipped, and enumeration goes on with the next line. Records come out in
//! file order; the search stops at the first record whose name matches.

use vstd::prelude::*;

use crate::entry::ParseError;
use crate::entry::ShadowEntry;
use crate::entry::SpecShadowEntry;
use crate::entry::parse_line;
use crate::entry::parse_line_spec;
use crate::text::views_of;

verus! {

/// The views of a sequence of parsed records.
pub open spec fn entry_views(v: Seq<ShadowEntry>) -> Seq<SpecShadowEntry> {
    v.map_values(|e: ShadowEntry| e@)
}

/// The records of the lines that parse, in file order; malformed lines are
/// skipped (the lenient policy).
pub open spec fn collect_spec(lines: Seq<Seq<char>>) -> Seq<SpecShadowEntry>
    decreases lines.len(),
{
    if lines.len() == 0 {
        Seq::empty()
    } else {
        let init = collect_spec(lines.drop_last());
        match parse_line_spec(lines.last()) {
            Ok(e) => init.push(e),
            Err(_) => init,
        }
    }
}

/// The line parses and its record carries the given login name.
pub open spec fn line_matches(line: Seq<char>, name: Seq<char>) -> bool {
    &&& parse_line_spec(line) is Ok
    &&& parse_line_spec(line)->Ok_0.name == name
}

/// The first record in file order whose login name is `name`.
pub open spec fn find_spec(lines: Seq<Seq<char>>, name: Seq<char>) -> Option<SpecShadowEntry>
    decreases lines.len(),
{
    if lines.len() == 0 {
        None
    } else if line_matches(lines[0], name) {
        Some(parse_line_spec(lines[0])->Ok_0)
    } else {
        find_spec(lines.drop_first(), name)
    }
}

/// Parse every line of a source, keeping the records in file order and
/// skipping lines with fewer than nine fields.
pub fn collect_all(lines: &Vec<String>) -> (entries: Vec<ShadowEntry>)
    ensures
        entry_views(entries@) == collect_spec(views_of(lines@)),
{
    let mut entries: Vec<ShadowEntry> = Vec::new();
    let mut i: usize = 0;
    proof {
        assert(entry_views(entries@) =~= collect_spec(views_of(lines@).take(0)));
    }
    while i < lines.len()
        invariant
            i <= lines.len(),
            entry_views(entries@) == collect_spec(views_of(lines@).take(i as int)),
        decreases lines.len() - i,
    {
        let ghost pre = views_of(lines@).take(i as int);
        proof {
            assert(views_of(lines@).take(i as int + 1).drop_last() =~= pre);
            assert(views_of(lines@).take(i as int + 1).last() == lines@[i as int]@);
        }
        match parse_line(lines[i].as_str()) {
            Ok(e) => {
                proof {
                    assert(entry_views(entries@.push(e)) =~= entry_views(entries@).push(e@));
                }
                entries.push(e);
            },
            Err(_) => {},
        }
        i = i + 1;
    }
    proof {
        assert(views_of(lines@).take(lines@.len() as int) =~= views_of(lines@));
    }
    entries
}

/// Search the lines of a source for the first record named `name`, in file
/// order; the scan stops at that record and never looks past it.
pub fn find_by_name(lines: &Vec<String>, name: &str) -> (r: Option<ShadowEntry>)
    ensures
        match r {
            Some(e) => find_spec(views_of(lines@), name@) == Some(e@),
            None => find_spec(views_of(lines@), name@) is None,
        },
{
    let name_owned = name.to_owned();
    let mut i: usize = 0;
    while i < lines.len()
        invariant
            i <= lines.len(),
            name_owned@ == name@,
            forall|j: int| 0 <= j < i ==> !line_matches(views_of(lines@)[j], name@),
        decreases lines.len() - i,
    {
        proof {
            assert(views_of(lines@)[i as int] == lines@[i as int]@);
        }
        match parse_line(lines[i].as_str()) {
            Ok(e) => {
                if e.name == name_owned {
                    proof {
                        lemma_find_spec_found(views_of(lines@), name@, i as int);
                    }
                    return Some(e);
                }
            },
            Err(_) => {},
        }
        i = i + 1;
    }
    proof {
        lemma_find_spec_none(views_of(lines@), name@);
    }
    None
}

/// Parse one line and keep its record only when the login name matches; the
/// per-line step of a lazy search over a source read line by line.
pub fn find_in_line(line: &str, name: &str) -> (r: Option<ShadowEntry>)
    ensures
        match r {
            Some(e) => line_matches(line@, name@) && parse_line_spec(line@)
                == Ok::<SpecShadowEntry, ParseError>(e@),
            None => !line_matches(line@, name@),
        },
{
    match parse_line(line) {
        Ok(e) => {
            if e.name == name.to_owned() {
                Some(e)
            } else {
                None
            }
        },
        Err(_) => None,
    }
}

/// The conventional location of the shadow database.
pub fn default_shadow_path() -> (p: &'static str)
    ensures
        p@ == "/etc/shadow"@,
{
    "/etc/shadow"
}

proof fn lemma_find_spec_found(lines: Seq<Seq<char>>, name: Seq<char>, i: int)
    requires
        0 <= i < lines.len(),
        line_matches(lines[i], name),
        forall|j: int| 0 <= j < i ==> !line_matches(lines[j], name),
    ensures
        find_spec(lines, name) == Some(parse_line_spec(lines[i])->Ok_0),
    decreases i,
{
    if i > 0 {
        let t = lines.drop_first();
        assert forall|j: int| 0 <= j < i - 1 implies !line_matches(t[j], name) by {
            assert(t[j] == lines[j + 1]);
        }
        assert(t[i - 1] == lines[i]);
        lemma_find_spec_found(t, name, i - 1);
        assert(!line_matches(lines[0], name));
    }
}

proof fn lemma_find_spec_none(lines: Seq<Seq<char>>, name: Seq<char>)
    requires
        forall|j: int| 0 <= j < lines.len() ==> !line_matches(lines[j], name),
    ensures
        find_spec(lines, name) is None,
    decreases lines.len(),
{
    if lines.len() > 0 {
        let t = lines.drop_first();
        assert forall|j: int| 0 <= j < t.len() implies !line_matches(t[j], name) by {
            assert(t[j] == lines[j + 1]);
        }
        lemma_find_spec_none(t, name);
    }
}

/// The records of the lines that parse, in the order of those lines.
pub open spec fn ok_records_in_order(lines: Seq<Seq<char>>) -> Seq<SpecShadowEntry> {
    lines.filter(|l: Seq<char>| parse_line_spec(l) is Ok).map_values(
        |l: Seq<char>| parse_line_spec(l)->Ok_0,
    )
}

/// Enumeration preserves file order: the collected records are exactly the
/// records of the lines that parse, in the order those lines stand in the
/// source.
pub proof fn lemma_collect_all_file_order(lines: Seq<Seq<char>>)
    ensures
        collect_spec(lines) == ok_records_in_order(lines),
    decreases lines.len(),
{
    reveal(Seq::filter);
    if lines.len() == 0 {
        assert(collect_spec(lines) =~= ok_records_in_order(lines));
    } else {
        let t = lines.drop_last();
        lemma_collect_all_file_order(t);
        match parse_line_spec(lines.last()) {
            Ok(e) => {
                assert(lines.filter(|l: Seq<char>| parse_line_spec(l) is Ok) == t.filter(
                    |l: Seq<char>| parse_line_spec(l) is Ok,
                ).push(lines.last()));
                assert(ok_records_in_order(lines) =~= ok_records_in_order(t).push(e));
            },
            Err(_) => {
                assert(lines.filter(|l: Seq<char>| parse_line_spec(l) is Ok) == t.filter(
                    |l: Seq<char>| parse_line_spec(l) is Ok,
                ));
            },
        }
    }
}

/// The search law: a found record is the record of the first matching line in
/// file order, with no match before it; absence means no line matches at all.
pub proof fn lemma_find_by_name_first(lines: Seq<Seq<char>>, name: Seq<char>)
    ensures
        match find_spec(lines, name) {
            Some(e) => exists|i: int|
                {
                    &&& 0 <= i < lines.len()
                    &&& #[trigger] line_matches(lines[i], name)
                    &&& parse_line_spec(lines[i]) == Ok::<SpecShadowEntry, ParseError>(e)
                    &&& forall|j: int| 0 <= j < i ==> !line_matches(lines[j], name)
                },
            None => forall|i: int| 0 <= i < lines.len() ==> !line_matches(lines[i], name),
        },
    decreases lines.len(),
{
    if lines.len() == 0 {
    } else if line_matches(lines[0], name) {
        let e = parse_line_spec(lines[0])->Ok_0;
        assert(line_matches(lines[0], name) && parse_line_spec(lines[0])
            == Ok::<SpecShadowEntry, ParseError>(e) && (forall|j: int|
            0 <= j < 0 ==> !line_matches(lines[j], name)));
    } else {
        let t = lines.drop_first();
        lemma_find_by_name_first(t, name);
        match find_spec(t, name) {
            Some(e) => {
                let i0 = choose|i: int|
                    {
                        &&& 0 <= i < t.len()
                        &&& #[trigger] line_matches(t[i], name)
                        &&& parse_line_spec(t[i]) == Ok::<SpecShadowEntry, ParseError>(e)
                        &&& forall|j: int| 0 <= j < i ==> !line_matches(t[j], name)
                    };
                assert(t[i0] == lines[i0 + 1]);
                assert forall|j: int| 0 <= j < i0 + 1 implies !line_matches(lines[j], name) by {
                    if j > 0 {
                        assert(t[j - 1] == lines[j]);
                    }
                }
                assert(line_matches(lines[i0 + 1], name) && parse_line_spec(lines[i0 + 1])
                    == Ok::<SpecShadowEntry, ParseError>(e) && (forall|j: int|
                    0 <= j < i0 + 1 ==> !line_matches(lines[j], name)));
            },
            None => {
                assert forall|i: int| 0 <= i < lines.len() implies !line_matches(
                    lines[i],
                    name,
                ) by {
                    if i > 0 {
                        assert(lines[i] == t[i - 1]);
                    }
                }
            },
        }
    }
}

} // verus!

//! Parsing of delimiter-separated configuration text, and the read-only
//! store built from a parsed mapping.
//!
//! A configuration source is plain text with one entry per line, in the form
//! `<key><delimiter><value>`.  A line is split at the first occurrence of the
//! delimiter; key and value are the two parts with surrounding whitespace
//! removed, and a later line overwrites an earlier one with the same key.  A
//! line without the delimiter yields nothing.

use vstd::prelude::*;

use crate::store::ConfigMap;
use crate::text::all_spaces;
use crate::text::chars_of;
use crate::text::find_in_range;
use crate::text::first_index_of;
use crate::text::is_space;
use crate::text::lemma_first_index_is;
use crate::text::lemma_trimmed_of_padded;
use crate::text::string_from_range;
use crate::text::trimmed;
use crate::text::trimmed_range;

verus! {

/// A line as `\r\n`-terminated input leaves it: the carriage return that
/// preceded the line feed is dropped.
pub open spec fn strip_cr(line: Seq<char>) -> Seq<char> {
    if line.len() > 0 && line.last() == '\r' {
        line.drop_last()
    } else {
        line
    }
}

/// The entry a single line yields: when the delimiter occurs in the line, the
/// parts left and right of its first occurrence, each trimmed; otherwise
/// nothing.
pub open spec fn line_entry(line: Seq<char>, delim: char) -> Option<(Seq<char>, Seq<char>)> {
    let p = first_index_of(line, delim) as int;
    if p < line.len() {
        Some((trimmed(line.take(p)), trimmed(line.skip(p + 1))))
    } else {
        None
    }
}

/// The lines of `content`: split at each line feed, dropping a carriage
/// return that directly precedes one.  A final line feed ends the last line;
/// it does not open an empty one.
pub open spec fn split_lines(content: Seq<char>) -> Seq<Seq<char>>
    decreases content.len(),
{
    if content.len() == 0 {
        Seq::empty()
    } else {
        let p = first_index_of(content, '\n') as int;
        if p < content.len() {
            seq![strip_cr(content.take(p))] + split_lines(content.skip(p + 1))
        } else {
            seq![content]
        }
    }
}

/// The mapping a sequence of lines yields: entries in line order, a later
/// occurrence of a key overwriting an earlier one.
pub open spec fn config_of_lines(lines: Seq<Seq<char>>, delim: char) -> Map<Seq<char>, Seq<char>>
    decreases lines.len(),
{
    if lines.len() == 0 {
        Map::empty()
    } else {
        let rest = config_of_lines(lines.drop_last(), delim);
        match line_entry(lines.last(), delim) {
            Some(kv) => rest.insert(kv.0, kv.1),
            None => rest,
        }
    }
}

/// The mapping a whole configuration text yields.
pub open spec fn parsed_config(content: Seq<char>, delim: char) -> Map<Seq<char>, Seq<char>> {
    config_of_lines(split_lines(content), delim)
}

/// The single failure of this library: the configuration source could not be
/// read as text.
#[derive(Clone, Copy, Debug, PartialEq, Eq, Structural)]
pub struct ReadError;

/// Behavior of a configuration parser: turn a source identifier into a
/// mapping, or fail with a read error.  Implementations decide what the
/// identifier names — a file path, an environment, an in-memory text.
pub trait ConfigParser {
    /// Parse the source that `source` identifies into a mapping.
    fn parse(&self, source: &str) -> Result<ConfigMap, ReadError>;
}

/// A parser for file-style configuration text with a configurable delimiter.
/// Reading a file is left to the caller; given the file's text,
/// [`FileConfigParser::parse_content`] yields exactly [`parsed_config`].
pub struct FileConfigParser {
    delimiter: char,
}

impl FileConfigParser {
    /// The configured delimiter.
    pub closed spec fn delim(self) -> char {
        self.delimiter
    }

    pub fn new(delimiter: char) -> (p: Self)
        ensures
            p.delim() == delimiter,
    {
        Self { delimiter }
    }

    /// Parses configuration text: split it into lines, split each line at
    /// the first occurrence of the delimiter, trim both parts, and keep the
    /// last value given for a key.
    pub fn parse_content(&self, content: &str) -> (m: ConfigMap)
        ensures
            m@ == parsed_config(content@, self.delim()),
    {
        let cs = chars_of(content);
        let n: usize = cs.len();
        let mut m = ConfigMap::empty();
        let mut pos: usize = 0;
        let ghost mut done: Seq<Seq<char>> = Seq::empty();
        proof {
            assert(cs@.skip(0) =~= cs@);
            assert(done + split_lines(cs@) =~= split_lines(cs@));
        }
        while pos < n
            invariant
                pos <= n,
                n == cs@.len(),
                cs@ == content@,
                split_lines(cs@) == done + split_lines(cs@.skip(pos as int)),
                m@ == config_of_lines(done, self.delim()),
            decreases n - pos,
        {
            let ghost suffix = cs@.skip(pos as int);
            let nl = find_in_range(&cs, pos, n, '\n');
            let mut line_end: usize = nl;
            if nl < n && line_end > pos {
                if cs[line_end - 1] == '\r' {
                    line_end = line_end - 1;
                }
            }
            let ghost line = cs@.subrange(pos as int, line_end as int);
            proof {
                assert(suffix.take(nl - pos) =~= cs@.subrange(pos as int, nl as int));
                if nl < n {
                    if nl > pos && cs@[nl - 1] == '\r' {
                        assert(cs@.subrange(pos as int, nl as int).drop_last() =~= line);
                    }
                    assert(strip_cr(suffix.take(nl - pos)) == line);
                    assert(suffix.skip(nl - pos + 1) =~= cs@.skip(nl + 1));
                    assert(split_lines(suffix) == seq![line] + split_lines(cs@.skip(nl + 1)));
                } else {
                    assert(suffix =~= line);
                    assert(split_lines(suffix) == seq![line]);
                }
            }
            let d = find_in_range(&cs, pos, line_end, self.delimiter);
            if d < line_end {
                let kr = trimmed_range(&cs, pos, d);
                let vr = trimmed_range(&cs, d + 1, line_end);
                let k = string_from_range(&cs, kr.0, kr.1);
                let v = string_from_range(&cs, vr.0, vr.1);
                proof {
                    assert(line.take(d - pos) =~= cs@.subrange(pos as int, d as int));
                    assert(line.skip(d - pos + 1) =~= cs@.subrange(d + 1, line_end as int));
                    assert(line_entry(line, self.delim()) == Some((k@, v@)));
                }
                m.insert(k, v);
            } else {
                proof {
                    assert(line_entry(line, self.delim()) is None);
                }
            }
            proof {
                let done1 = done.push(line);
                assert(done1.drop_last() =~= done);
                assert(config_of_lines(done1, self.delim()) == m@);
                if nl < n {
                    assert(done1 + split_lines(cs@.skip(nl + 1)) =~= done + split_lines(suffix));
                } else {
                    assert(cs@.skip(n as int) =~= Seq::<char>::empty());
                    assert(done1 + split_lines(cs@.skip(n as int)) =~= done + split_lines(suffix));
                }
                done = done1;
            }
            if nl < n {
                pos = nl + 1;
            } else {
                pos = n;
            }
        }
        proof {
            assert(cs@.skip(n as int) =~= Seq::<char>::empty());
            assert(done + split_lines(cs@.skip(n as int)) =~= done);
        }
        m
    }
}

/// A well-formed line yields its key and value.  In a line that reads as
/// whitespace, then a key free of whitespace at its ends, then whitespace,
/// then the first occurrence of the delimiter, then the rest, the entry is
/// the key together with the trimmed rest.
pub proof fn lemma_entry_of_well_formed_line(
    pre: Seq<char>,
    key: Seq<char>,
    mid: Seq<char>,
    rest: Seq<char>,
    delim: char,
)
    requires
        all_spaces(pre),
        all_spaces(mid),
        !pre.contains(delim),
        !key.contains(delim),
        !mid.contains(delim),
        key.len() > 0 ==> !is_space(key.first()) && !is_space(key.last()),
    ensures
        line_entry(pre + key + mid + seq![delim] + rest, delim) == Some((key, trimmed(rest))),
{
    let line = pre + key + mid + seq![delim] + rest;
    let p = pre.len() + key.len() + mid.len();
    assert forall|j: int| 0 <= j < p implies line[j] != delim by {
        if j < pre.len() {
            assert(line[j] == pre[j]);
            if pre[j] == delim {
                assert(pre.contains(delim));
            }
        } else if j < pre.len() + key.len() {
            assert(line[j] == key[j - pre.len()]);
            if key[j - pre.len()] == delim {
                assert(key.contains(delim));
            }
        } else {
            assert(line[j] == mid[j - pre.len() - key.len()]);
            if mid[j - pre.len() - key.len()] == delim {
                assert(mid.contains(delim));
            }
        }
    }
    assert(line[p as int] == delim);
    lemma_first_index_is(line, delim, p as int);
    assert(line.take(p as int) =~= pre + key + mid);
    assert(line.skip(p as int + 1) =~= rest);
    lemma_trimmed_of_padded(pre, key, mid);
}

/// A fully well-formed line — whitespace, the key, whitespace, the first
/// occurrence of the delimiter, whitespace, the value, whitespace — yields
/// exactly the key and the value.
pub proof fn lemma_entry_of_padded_line(
    pre: Seq<char>,
    key: Seq<char>,
    mid: Seq<char>,
    lead: Seq<char>,
    value: Seq<char>,
    post: Seq<char>,
    delim: char,
)
    requires
        all_spaces(pre),
        all_spaces(mid),
        all_spaces(lead),
        all_spaces(post),
        !pre.contains(delim),
        !key.contains(delim),
        !mid.contains(delim),
        key.len() > 0 ==> !is_space(key.first()) && !is_space(key.last()),
        value.len() > 0 ==> !is_space(value.first()) && !is_space(value.last()),
    ensures
        line_entry(pre + key + mid + seq![delim] + (lead + value + post), delim) == Some(
            (key, value),
        ),
{
    lemma_entry_of_well_formed_line(pre, key, mid, lead + value + post, delim);
    lemma_trimmed_of_padded(lead, value, post);
}

/// A line in which the delimiter does not occur yields no entry.
pub proof fn lemma_entry_of_line_without_delimiter(line: Seq<char>, delim: char)
    requires
        !line.contains(delim),
    ensures
        line_entry(line, delim) is None,
{
    assert forall|j: int| 0 <= j < line.len() implies line[j] != delim by {
        if line[j] == delim {
            assert(line.contains(delim));
        }
    }
    lemma_first_index_is(line, delim, line.len() as int);
}

/// A line that yields no entry contributes nothing to the mapping: dropping
/// it leaves the mapping of the remaining lines unchanged.
pub proof fn lemma_line_without_entry_ignored(lines: Seq<Seq<char>>, i: int, delim: char)
    requires
        0 <= i < lines.len(),
        line_entry(lines[i], delim) is None,
    ensures
        config_of_lines(lines, delim) == config_of_lines(lines.remove(i), delim),
    decreases lines.len(),
{
    if i == lines.len() - 1 {
        assert(lines.remove(i) =~= lines.drop_last());
    } else {
        lemma_line_without_entry_ignored(lines.drop_last(), i, delim);
        assert(lines.remove(i).drop_last() =~= lines.drop_last().remove(i));
        assert(lines.remove(i).last() == lines.last());
    }
}

/// When several lines give a value for the same key, the last of them in
/// line order determines the stored value.
pub proof fn lemma_last_occurrence_wins(
    lines: Seq<Seq<char>>,
    delim: char,
    i: int,
    k: Seq<char>,
    v: Seq<char>,
)
    requires
        0 <= i < lines.len(),
        line_entry(lines[i], delim) == Some((k, v)),
        forall|j: int|
            i < j < lines.len() ==> (#[trigger] line_entry(lines[j], delim) matches Some(kv)
                ==> kv.0 != k),
    ensures
        config_of_lines(lines, delim).contains_key(k),
        config_of_lines(lines, delim)[k] == v,
    decreases lines.len(),
{
    if i == lines.len() - 1 {
    } else {
        assert forall|j: int|
            i < j < lines.drop_last().len() implies (#[trigger] line_entry(
            lines.drop_last()[j],
            delim,
        ) matches Some(kv) ==> kv.0 != k) by {
            assert(lines.drop_last()[j] == lines[j]);
        }
        lemma_last_occurrence_wins(lines.drop_last(), delim, i, k, v);
        assert(line_entry(lines.last(), delim) matches Some(kv) ==> kv.0 != k);
    }
}

/// Parsing is a pure function of the text and the delimiter: two mappings
/// parsed from the same text with the same delimiter compare equal.
pub proof fn lemma_parse_deterministic(
    content: Seq<char>,
    delim: char,
    m1: Map<Seq<char>, Seq<char>>,
    m2: Map<Seq<char>, Seq<char>>,
)
    requires
        m1 == parsed_config(content, delim),
        m2 == parsed_config(content, delim),
    ensures
        m1 == m2,
{
}

/// The read-only configuration store: a parsed mapping behind a lookup.
pub struct Config {
    data: ConfigMap,
}

impl View for Config {
    type V = Map<Seq<char>, Seq<char>>;

    closed spec fn view(&self) -> Map<Seq<char>, Seq<char>> {
        self.data@
    }
}

impl Config {
    /// Wraps an already parsed mapping; the store answers exactly from it.
    pub fn from_map(data: ConfigMap) -> (c: Self)
        ensures
            c@ == data@,
    {
        Self { data }
    }

    /// Builds a store by running `parser` on `source`.  The parser
    /// implementation decides the outcome: a mapping it returns is wrapped
    /// unmodified, as by [`Config::from_map`], and a failure it reports is
    /// propagated unchanged, constructing no store.
    pub fn new<P: ConfigParser>(parser: P, source: &str) -> (r: Result<Self, ReadError>)
        ensures
            r matches Ok(c) ==> exists|m: ConfigMap|
                call_ensures(P::parse, (&parser, source), Ok(m)) && c@ == m@,
            r matches Err(e) ==> call_ensures(P::parse, (&parser, source), Err(e)),
    {
        match parser.parse(source) {
            Ok(data) => Ok(Self::from_map(data)),
            Err(e) => Err(e),
        }
    }

    /// Looks up `key`: an owned copy of the stored value when the key is
    /// present, nothing when it is absent.
    pub fn get(&self, key: &str) -> (r: Option<String>)
        ensures
            match r {
                Some(v) => self@.contains_key(key@) && v@ == self@[key@],
                None => !self@.contains_key(key@),
            },
    {
        self.data.get(key)
    }
}

} // verus!

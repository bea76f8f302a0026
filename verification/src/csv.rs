use vstd::prelude::*;
use vstd::string::StrSliceExecFns;
use vstd::string::StringExecFns;
use crate::text::{
    append_i64_dec, parse_i64_range, push_char, spec_int_chars, spec_parse_int,
};

verus! {

/// The default field separator of the tabular text format.
pub const DEFAULT_SEPARATOR: char = ',';

/// The default quote character of the tabular text format.
pub const DEFAULT_STR_MARKER: char = '"';

/// A single value of the tabular text format.
#[derive(Debug, Clone)]
pub enum CsvObject {
    /// A string value.
    String(String),
    /// An integer value.
    Int(i64),
    /// A boolean value.
    Bool(bool),
    /// No value.
    Null,
}

impl CsvObject {
    /// The held string, when the value is one.
    pub fn as_string(&self) -> (r: Option<&str>)
        ensures
            r matches Some(v) ==> self matches CsvObject::String(s) && v@ == s@,
            self matches CsvObject::String(s) ==> r is Some,
            r is None ==> self !is String,
    {
        match self {
            CsvObject::String(s) => Some(s.as_str()),
            _ => None,
        }
    }

    /// The held boolean, when the value is one.
    pub fn as_bool(&self) -> (r: Option<bool>)
        ensures
            r == (match self {
                CsvObject::Bool(b) => Some(*b),
                _ => None::<bool>,
            }),
    {
        match self {
            CsvObject::Bool(b) => Some(*b),
            _ => None,
        }
    }
}

/// Whether a character has the Unicode white-space property, the set that
/// the standard library's trimming also uses.
pub open spec fn spec_is_ws(c: char) -> bool {
    let u = c as u32;
    (9 <= u <= 13) || u == 32 || u == 133 || u == 160 || u == 0x1680 || (0x2000 <= u
        <= 0x200A) || u == 0x2028 || u == 0x2029 || u == 0x202F || u == 0x205F || u == 0x3000
}

/// Whether a character has the Unicode white-space property.
fn is_whitespace_char(c: char) -> (r: bool)
    ensures
        r == spec_is_ws(c),
{
    let u: u32 = c as u32;
    (9 <= u && u <= 13) || u == 32 || u == 133 || u == 160 || u == 0x1680 || (0x2000 <= u && u
        <= 0x200A) || u == 0x2028 || u == 0x2029 || u == 0x202F || u == 0x205F || u == 0x3000
}

/// The sequence without its leading white space.
pub open spec fn spec_trim_start(f: Seq<char>) -> Seq<char>
    decreases f.len(),
{
    if f.len() > 0 && spec_is_ws(f[0]) {
        spec_trim_start(f.drop_first())
    } else {
        f
    }
}

/// The sequence without its trailing white space.
pub open spec fn spec_trim_end(f: Seq<char>) -> Seq<char>
    decreases f.len(),
{
    if f.len() > 0 && spec_is_ws(f.last()) {
        spec_trim_end(f.drop_last())
    } else {
        f
    }
}

/// The sequence without its leading and trailing white space.
pub open spec fn spec_trim(f: Seq<char>) -> Seq<char> {
    spec_trim_end(spec_trim_start(f))
}

/// How one parsed value relates to the trimmed text of its field: the bare
/// words true and false are booleans, an empty or lone-quote field is null,
/// a field enclosed in quote characters is the string between them taken
/// verbatim, a signed number that fits 64 bits is an integer, and anything
/// else is null.
pub open spec fn spec_value_matches(v: CsvObject, f: Seq<char>, mkr: char) -> bool {
    let t = spec_trim(f);
    if t == "false"@ {
        v == CsvObject::Bool(false)
    } else if t == "true"@ {
        v == CsvObject::Bool(true)
    } else if (t.len() == 1 && t[0] == mkr) || t.len() == 0 {
        v == CsvObject::Null
    } else if t.len() >= 2 && t[0] == mkr && t.last() == mkr {
        v matches CsvObject::String(s) && s@ == t.subrange(1, t.len() - 1)
    } else {
        match spec_parse_int(t) {
            Some(n) => if i64::MIN <= n <= i64::MAX {
                v == CsvObject::Int(n as i64)
            } else {
                v == CsvObject::Null
            },
            None => v == CsvObject::Null,
        }
    }
}

/// The first position at or after `pos` holding a line feed, or the length.
pub open spec fn spec_find_nl(s: Seq<char>, pos: int) -> int
    decreases s.len() - pos,
{
    if pos < 0 || pos >= s.len() {
        s.len() as int
    } else if s[pos] == '\n' {
        pos
    } else {
        spec_find_nl(s, pos + 1)
    }
}

/// The content of the line starting at `start` and ending at the line feed
/// at `nl`: a carriage return just before a line feed is dropped too.
pub open spec fn spec_line_content(s: Seq<char>, start: int, nl: int) -> Seq<char> {
    if nl < s.len() && nl - 1 >= start && s[nl - 1] == '\r' {
        s.subrange(start, nl - 1)
    } else {
        s.subrange(start, nl)
    }
}

/// The lines of the text from position `pos`: split at line feeds, with a
/// carriage return before each line feed dropped, and no final empty line
/// after a trailing line terminator.
pub open spec fn spec_lines(s: Seq<char>, pos: int) -> Seq<Seq<char>>
    decreases s.len() - pos,
        via spec_lines_decreases
{
    if pos < 0 || pos >= s.len() {
        Seq::empty()
    } else {
        let nl = spec_find_nl(s, pos);
        if nl >= s.len() {
            seq![spec_line_content(s, pos, nl)]
        } else {
            seq![spec_line_content(s, pos, nl)] + spec_lines(s, nl + 1)
        }
    }
}

#[via_fn]
proof fn spec_lines_decreases(s: Seq<char>, pos: int) {
    if !(pos < 0 || pos >= s.len()) {
        lemma_find_nl_bounds(s, pos);
    }
}

/// The position of the next field separator at or after `pos`, and the
/// quote state just after it.  Every quote character flips the state, and a
/// separator counts only while outside quotes.
pub open spec fn spec_find_sep(line: Seq<char>, pos: int, in_str: bool, sep: char, mkr: char) -> (
    int,
    bool,
)
    decreases line.len() - pos,
{
    if pos < 0 || pos >= line.len() {
        (line.len() as int, in_str)
    } else {
        let ns = if line[pos] == mkr {
            !in_str
        } else {
            in_str
        };
        if !ns && line[pos] == sep {
            (pos, ns)
        } else {
            spec_find_sep(line, pos + 1, ns, sep, mkr)
        }
    }
}

/// The fields of a line from position `pos` in quote state `in_str`: the
/// text up to each unquoted separator, and the rest after the last one.
pub open spec fn spec_fields_from(
    line: Seq<char>,
    pos: int,
    in_str: bool,
    sep: char,
    mkr: char,
) -> Seq<Seq<char>>
    decreases line.len() - pos,
        via spec_fields_from_decreases
{
    if pos < 0 {
        Seq::empty()
    } else {
        let (j, ns) = spec_find_sep(line, pos, in_str, sep, mkr);
        if j >= line.len() {
            seq![line.subrange(pos, line.len() as int)]
        } else {
            seq![line.subrange(pos, j)] + spec_fields_from(line, j + 1, ns, sep, mkr)
        }
    }
}

#[via_fn]
proof fn spec_fields_from_decreases(line: Seq<char>, pos: int, in_str: bool, sep: char, mkr: char) {
    if pos >= 0 {
        if pos <= line.len() {
            lemma_find_sep_bounds(line, pos, in_str, sep, mkr);
        }
    }
}

/// The fields of one line, scanned from its start outside quotes.
pub open spec fn spec_fields(line: Seq<char>, sep: char, mkr: char) -> Seq<Seq<char>> {
    spec_fields_from(line, 0, false, sep, mkr)
}

/// The found separator position lies at or after `pos` and within the line
/// length.
proof fn lemma_find_sep_bounds(line: Seq<char>, pos: int, in_str: bool, sep: char, mkr: char)
    requires
        0 <= pos <= line.len(),
    ensures
        pos <= spec_find_sep(line, pos, in_str, sep, mkr).0 <= line.len(),
    decreases line.len() - pos,
{
    if pos < line.len() {
        let ns = if line[pos] == mkr {
            !in_str
        } else {
            in_str
        };
        if !(!ns && line[pos] == sep) {
            lemma_find_sep_bounds(line, pos + 1, ns, sep, mkr);
        }
    }
}

/// The found line feed position lies at or after `pos` and within the text
/// length.
proof fn lemma_find_nl_bounds(s: Seq<char>, pos: int)
    requires
        0 <= pos <= s.len(),
    ensures
        pos <= spec_find_nl(s, pos) <= s.len(),
        spec_find_nl(s, pos) < s.len() ==> s[spec_find_nl(s, pos)] == '\n',
    decreases s.len() - pos,
{
    if pos < s.len() && s[pos] != '\n' {
        lemma_find_nl_bounds(s, pos + 1);
    }
}

/// Finds the next line feed at or after `pos`.
fn find_nl(s: &str, pos: usize) -> (r: usize)
    requires
        pos <= s@.len(),
    ensures
        r == spec_find_nl(s@, pos as int),
        pos <= r <= s@.len(),
        r < s@.len() ==> s@[r as int] == '\n',
{
    let n: usize = s.unicode_len();
    let mut i: usize = pos;
    while i < n
        invariant
            pos <= i <= n,
            n == s@.len(),
            spec_find_nl(s@, pos as int) == spec_find_nl(s@, i as int),
            forall|k: int| pos <= k < i ==> s@[k] != '\n',
        decreases n - i,
    {
        if s.get_char(i) == '\n' {
            return i;
        }
        i += 1;
    }
    i
}

/// Finds the next unquoted separator of the range `pos..hi` of the text,
/// scanning in quote state `in_str`; reports the position and the state
/// just after it.
fn find_sep(s: &str, lo: usize, hi: usize, pos: usize, in_str: bool, sep: char, mkr: char) -> (r: (
    usize,
    bool,
))
    requires
        lo <= pos <= hi <= s@.len(),
    ensures
        ({
            let line = s@.subrange(lo as int, hi as int);
            let (j, ns) = spec_find_sep(line, pos - lo, in_str, sep, mkr);
            r.0 == j + lo && r.1 == ns && pos <= r.0 <= hi
        }),
{
    let ghost line = s@.subrange(lo as int, hi as int);
    let mut i: usize = pos;
    let mut st: bool = in_str;
    while i < hi
        invariant
            lo <= pos <= i <= hi <= s@.len(),
            line == s@.subrange(lo as int, hi as int),
            spec_find_sep(line, pos - lo, in_str, sep, mkr) == spec_find_sep(
                line,
                i - lo,
                st,
                sep,
                mkr,
            ),
        decreases hi - i,
    {
        let c: char = s.get_char(i);
        proof {
            assert(line[i - lo] == s@[i as int]);
        }
        let ns: bool = if c == mkr {
            !st
        } else {
            st
        };
        if !ns && c == sep {
            return (i, ns);
        }
        st = ns;
        i += 1;
    }
    (i, st)
}

/// Trims the white space of the range `lo..hi` of the text; the returned
/// range holds exactly the trimmed characters.
fn trim_range(s: &str, lo: usize, hi: usize) -> (r: (usize, usize))
    requires
        lo <= hi <= s@.len(),
    ensures
        lo <= r.0 <= r.1 <= hi,
        s@.subrange(r.0 as int, r.1 as int) == spec_trim(s@.subrange(lo as int, hi as int)),
{
    let ghost f = s@.subrange(lo as int, hi as int);
    let mut a: usize = lo;
    while a < hi && is_whitespace_char(s.get_char(a))
        invariant
            lo <= a <= hi <= s@.len(),
            f == s@.subrange(lo as int, hi as int),
            spec_trim_start(f) == spec_trim_start(s@.subrange(a as int, hi as int)),
        decreases hi - a,
    {
        proof {
            assert(s@.subrange(a as int, hi as int).drop_first() =~= s@.subrange(
                a + 1int,
                hi as int,
            ));
        }
        a += 1;
    }
    proof {
        assert(spec_trim_start(s@.subrange(a as int, hi as int)) == s@.subrange(
            a as int,
            hi as int,
        ));
    }
    let mut b: usize = hi;
    while b > a && is_whitespace_char(s.get_char(b - 1))
        invariant
            lo <= a <= b <= hi <= s@.len(),
            spec_trim_start(f) == s@.subrange(a as int, hi as int),
            spec_trim_end(s@.subrange(a as int, hi as int)) == spec_trim_end(
                s@.subrange(a as int, b as int),
            ),
        decreases b - a,
    {
        proof {
            assert(s@.subrange(a as int, b as int).drop_last() =~= s@.subrange(
                a as int,
                b - 1int,
            ));
        }
        b -= 1;
    }
    proof {
        assert(spec_trim_end(s@.subrange(a as int, b as int)) == s@.subrange(
            a as int,
            b as int,
        ));
    }
    (a, b)
}

/// Parses the field in the range `lo..hi` of the text, after trimming.
fn parse_field(s: &str, lo: usize, hi: usize, mkr: char) -> (r: CsvObject)
    requires
        lo <= hi <= s@.len(),
    ensures
        spec_value_matches(r, s@.subrange(lo as int, hi as int), mkr),
{
    let ghost f = s@.subrange(lo as int, hi as int);
    let tr: (usize, usize) = trim_range(s, lo, hi);
    let a: usize = tr.0;
    let b: usize = tr.1;
    let ghost t = spec_trim(f);
    proof {
        assert(t == s@.subrange(a as int, b as int));
    }
    let len: usize = b - a;
    if len == 5 && s.get_char(a) == 'f' && s.get_char(a + 1) == 'a' && s.get_char(a + 2) == 'l'
        && s.get_char(a + 3) == 's' && s.get_char(a + 4) == 'e' {
        proof {
            reveal_strlit("false");
            reveal_strlit("true");
            assert(t =~= "false"@);
        }
        return CsvObject::Bool(false);
    }
    if len == 4 && s.get_char(a) == 't' && s.get_char(a + 1) == 'r' && s.get_char(a + 2) == 'u'
        && s.get_char(a + 3) == 'e' {
        proof {
            reveal_strlit("false");
            reveal_strlit("true");
            assert(t =~= "true"@);
            assert(t[0] != "false"@[0]);
        }
        return CsvObject::Bool(true);
    }
    proof {
        reveal_strlit("false");
        reveal_strlit("true");
        if t.len() == 5 {
            assert(t != "false"@) by {
                if t == "false"@ {
                    assert(s@[a as int] == t[0]);
                    assert(s@[a + 1int] == t[1]);
                    assert(s@[a + 2int] == t[2]);
                    assert(s@[a + 3int] == t[3]);
                    assert(s@[a + 4int] == t[4]);
                }
            }
        }
        if t.len() == 4 {
            assert(t != "true"@) by {
                if t == "true"@ {
                    assert(s@[a as int] == t[0]);
                    assert(s@[a + 1int] == t[1]);
                    assert(s@[a + 2int] == t[2]);
                    assert(s@[a + 3int] == t[3]);
                }
            }
        }
    }
    if len == 0 {
        return CsvObject::Null;
    }
    if len == 1 && s.get_char(a) == mkr {
        return CsvObject::Null;
    }
    if len >= 2 && s.get_char(a) == mkr && s.get_char(b - 1) == mkr {
        let middle: String = s.substring_char(a + 1, b - 1).to_owned();
        proof {
            assert(middle@ =~= t.subrange(1, t.len() - 1));
        }
        return CsvObject::String(middle);
    }
    match parse_i64_range(s, a, b) {
        Some(n) => CsvObject::Int(n),
        None => CsvObject::Null,
    }
}

impl CsvObject {
    /// Splits tabular text into rows of parsed values: one row per line,
    /// one value per field between unquoted separators.  A field that
    /// cannot be read becomes null rather than failing the parse.
    pub fn from_str(s: &str, sep: char, str_mkr: char) -> (r: Vec<Vec<CsvObject>>)
        ensures
            r@.len() == spec_lines(s@, 0).len(),
            forall|i: int|
                0 <= i < r@.len() ==> (#[trigger] r@[i])@.len() == spec_fields(
                    spec_lines(s@, 0)[i],
                    sep,
                    str_mkr,
                ).len(),
            forall|i: int, j: int|
                0 <= i < r@.len() && 0 <= j < r@[i]@.len() ==> spec_value_matches(
                    #[trigger] r@[i]@[j],
                    spec_fields(spec_lines(s@, 0)[i], sep, str_mkr)[j],
                    str_mkr,
                ),
    {
        let n: usize = s.unicode_len();
        let mut result: Vec<Vec<CsvObject>> = Vec::new();
        let mut pos: usize = 0;
        while pos < n
            invariant
                pos <= n,
                n == s@.len(),
                result@.len() + spec_lines(s@, pos as int).len() == spec_lines(s@, 0).len(),
                forall|i: int|
                    0 <= i < result@.len() ==> (#[trigger] result@[i])@.len() == spec_fields(
                        spec_lines(s@, 0)[i],
                        sep,
                        str_mkr,
                    ).len(),
                forall|i: int|
                    result@.len() <= i < spec_lines(s@, 0).len() ==> #[trigger] spec_lines(
                        s@,
                        0,
                    )[i] == spec_lines(s@, pos as int)[i - result@.len()],
                forall|i: int, j: int|
                    0 <= i < result@.len() && 0 <= j < result@[i]@.len() ==> spec_value_matches(
                        #[trigger] result@[i]@[j],
                        spec_fields(spec_lines(s@, 0)[i], sep, str_mkr)[j],
                        str_mkr,
                    ),
            decreases n - pos,
        {
            let nl: usize = find_nl(s, pos);
            proof {
                lemma_find_nl_bounds(s@, pos as int);
            }
            let content_end: usize = if nl < n && nl >= pos + 1 && s.get_char(nl - 1) == '\r' {
                nl - 1
            } else {
                nl
            };
            proof {
                assert(spec_line_content(s@, pos as int, nl as int) == s@.subrange(
                    pos as int,
                    content_end as int,
                ));
            }
            let row: Vec<CsvObject> = parse_line(s, pos, content_end, sep, str_mkr);
            result.push(row);
            proof {
                if nl < n {
                    assert(spec_lines(s@, pos as int) == seq![
                        spec_line_content(s@, pos as int, nl as int),
                    ] + spec_lines(s@, nl + 1int));
                } else {
                    assert(spec_lines(s@, pos as int) =~= seq![
                        spec_line_content(s@, pos as int, nl as int),
                    ]);
                }
            }
            if nl >= n {
                pos = n;
            } else {
                pos = nl + 1;
            }
        }
        proof {
            assert(spec_lines(s@, pos as int) =~= Seq::<Seq<char>>::empty());
        }
        result
    }
}

/// Parses the fields of one line, held in the range `lo..hi` of the text.
fn parse_line(s: &str, lo: usize, hi: usize, sep: char, mkr: char) -> (r: Vec<CsvObject>)
    requires
        lo <= hi <= s@.len(),
    ensures
        ({
            let line = s@.subrange(lo as int, hi as int);
            &&& r@.len() == spec_fields(line, sep, mkr).len()
            &&& forall|j: int|
                0 <= j < r@.len() ==> spec_value_matches(
                    #[trigger] r@[j],
                    spec_fields(line, sep, mkr)[j],
                    mkr,
                )
        }),
{
    let ghost line = s@.subrange(lo as int, hi as int);
    let mut row: Vec<CsvObject> = Vec::new();
    let mut pos: usize = lo;
    let mut st: bool = false;
    let mut done: bool = false;
    while !done
        invariant
            lo <= pos <= hi <= s@.len(),
            line == s@.subrange(lo as int, hi as int),
            !done ==> row@.len() + spec_fields_from(line, pos - lo, st, sep, mkr).len()
                == spec_fields(line, sep, mkr).len(),
            !done ==> forall|j: int|
                row@.len() <= j < spec_fields(line, sep, mkr).len() ==> #[trigger] spec_fields(
                    line,
                    sep,
                    mkr,
                )[j] == spec_fields_from(line, pos - lo, st, sep, mkr)[j - row@.len()],
            done ==> row@.len() == spec_fields(line, sep, mkr).len(),
            forall|j: int|
                0 <= j < row@.len() ==> spec_value_matches(
                    #[trigger] row@[j],
                    spec_fields(line, sep, mkr)[j],
                    mkr,
                ),
        decreases hi - pos + 1, (if done {
            0int
        } else {
            1int
        }),
    {
        let found: (usize, bool) = find_sep(s, lo, hi, pos, st, sep, mkr);
        let j: usize = found.0;
        proof {
            lemma_find_sep_bounds(line, pos - lo, st, sep, mkr);
            assert(line.subrange(pos - lo, j - lo) =~= s@.subrange(pos as int, j as int));
            assert(line.subrange(pos - lo, line.len() as int) =~= s@.subrange(
                pos as int,
                hi as int,
            ));
        }
        let v: CsvObject = parse_field(s, pos, j, mkr);
        row.push(v);
        if j >= hi {
            done = true;
        } else {
            pos = j + 1;
            st = found.1;
        }
    }
    row
}

/// The serialized text of one value: null is empty, a string sits between
/// two quote characters, and numbers and booleans take their plain form.
pub open spec fn spec_value_text(v: CsvObject, mkr: char) -> Seq<char> {
    match v {
        CsvObject::Null => Seq::empty(),
        CsvObject::String(s) => seq![mkr] + s@ + seq![mkr],
        CsvObject::Int(i) => spec_int_chars(i as int),
        CsvObject::Bool(b) => if b {
            "true"@
        } else {
            "false"@
        },
    }
}

/// The serialized cells of one row, separated by the separator, with no
/// trailing separator.
pub open spec fn spec_row_cells(row: Seq<CsvObject>, sep: char, mkr: char) -> Seq<char>
    decreases row.len(),
{
    if row.len() == 0 {
        Seq::empty()
    } else if row.len() == 1 {
        spec_value_text(row[0], mkr)
    } else {
        spec_value_text(row[0], mkr) + seq![sep] + spec_row_cells(row.drop_first(), sep, mkr)
    }
}

/// The serialized text of many rows: each row's cells, each row ended by a
/// carriage return and line feed.
pub open spec fn spec_csv_text(rows: Seq<Seq<CsvObject>>, sep: char, mkr: char) -> Seq<char>
    decreases rows.len(),
{
    if rows.len() == 0 {
        Seq::empty()
    } else {
        spec_row_cells(rows[0], sep, mkr) + seq!['\r', '\n'] + spec_csv_text(
            rows.drop_first(),
            sep,
            mkr,
        )
    }
}

/// Appends the serialized text of one value.
fn append_value(out: &mut String, v: &CsvObject, mkr: char)
    ensures
        final(out)@ == old(out)@ + spec_value_text(*v, mkr),
{
    match v {
        CsvObject::Null => {
            proof {
                assert(final(out)@ =~= old(out)@ + spec_value_text(*v, mkr));
            }
        },
        CsvObject::String(s) => {
            push_char(out, mkr);
            out.append(s.as_str());
            push_char(out, mkr);
            proof {
                assert(final(out)@ =~= old(out)@ + spec_value_text(*v, mkr));
            }
        },
        CsvObject::Int(i) => {
            append_i64_dec(out, *i);
        },
        CsvObject::Bool(b) => {
            if *b {
                out.append("true");
            } else {
                out.append("false");
            }
        },
    }
}

impl CsvObject {
    /// Serializes rows of values: fields joined by the separator with no
    /// trailing separator, and each row ended by a carriage return and line
    /// feed.
    pub fn serialize(values: Vec<Vec<CsvObject>>, sep: char, str_mkr: char) -> (r: String)
        ensures
            r@ == spec_csv_text(
                values@.map_values(|row: Vec<CsvObject>| row@),
                sep,
                str_mkr,
            ),
    {
        let ghost rows = values@.map_values(|row: Vec<CsvObject>| row@);
        let mut out: String = String::new();
        proof {
            assert(rows.skip(0int) =~= rows);
            assert(out@ + spec_csv_text(rows, sep, str_mkr) =~= spec_csv_text(
                rows,
                sep,
                str_mkr,
            ));
        }
        let mut i: usize = 0;
        while i < values.len()
            invariant
                i <= values@.len(),
                rows == values@.map_values(|row: Vec<CsvObject>| row@),
                out@ + spec_csv_text(rows.skip(i as int), sep, str_mkr) =~= spec_csv_text(
                    rows,
                    sep,
                    str_mkr,
                ),
            decreases values@.len() - i,
        {
            let row: &Vec<CsvObject> = &values[i];
            let mut j: usize = 0;
            let ghost cells = row@;
            proof {
                assert(rows[i as int] == row@);
                assert(rows.skip(i as int)[0] == cells);
                assert(rows.skip(i as int).drop_first() =~= rows.skip(i + 1int));
                assert(cells.skip(0int) =~= cells);
                assert(spec_csv_text(rows.skip(i as int), sep, str_mkr) == spec_row_cells(
                    cells,
                    sep,
                    str_mkr,
                ) + seq!['\r', '\n'] + spec_csv_text(rows.skip(i + 1int), sep, str_mkr));
                assert(out@ + spec_row_cells(cells.skip(0int), sep, str_mkr) + seq!['\r', '\n']
                    + spec_csv_text(rows.skip(i + 1int), sep, str_mkr) =~= out@ + spec_csv_text(
                    rows.skip(i as int),
                    sep,
                    str_mkr,
                ));
            }
            while j < row.len()
                invariant
                    j <= row@.len(),
                    cells == row@,
                    i < values@.len(),
                    rows == values@.map_values(|r2: Vec<CsvObject>| r2@),
                    rows[i as int] == cells,
                    out@ + spec_row_cells(cells.skip(j as int), sep, str_mkr) + seq![
                        '\r',
                        '\n',
                    ] + spec_csv_text(rows.skip(i + 1int), sep, str_mkr) =~= spec_csv_text(
                        rows,
                        sep,
                        str_mkr,
                    ),
                decreases row@.len() - j,
            {
                append_value(&mut out, &row[j], str_mkr);
                if j + 1 < row.len() {
                    push_char(&mut out, sep);
                }
                proof {
                    assert(cells.skip(j as int).drop_first() =~= cells.skip(j + 1int));
                    assert(cells.skip(j as int)[0] == cells[j as int]);
                }
                j += 1;
            }
            proof {
                assert(spec_row_cells(cells.skip(row@.len() as int), sep, str_mkr)
                    =~= Seq::<char>::empty());
            }
            push_char(&mut out, '\r');
            push_char(&mut out, '\n');
            proof {
                assert(rows.skip(i as int).drop_first() =~= rows.skip(i + 1int));
                assert(rows.skip(i as int)[0] == cells);
            }
            i += 1;
        }
        proof {
            assert(spec_csv_text(rows.skip(rows.len() as int), sep, str_mkr)
                =~= Seq::<char>::empty());
            assert(out@ =~= spec_csv_text(rows, sep, str_mkr));
        }
        out
    }
}

} // verus!

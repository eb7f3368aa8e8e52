//! The import formats: comma-separated lines, tab-separated lines and a JSON
//! array of objects, each giving (word, meaning) pairs.

use vstd::prelude::*;
use crate::text::{
    chars_of, same_text, find_char, first_two_fields, field_end, lemma_field_end_bound, lines, strip_cr,
    string_of_range, trim, trim_bounds, trim_quotes,
};

verus! {

/// An import format.
#[derive(Debug, Clone, Copy, PartialEq, Eq, Structural)]
pub enum ImportFormat {
    Csv,
    Json,
    Txt,
}

/// The format a format name stands for: `csv`, `json` or `txt`.
pub open spec fn format_of(name: Seq<char>) -> Option<ImportFormat> {
    if name == seq!['c', 's', 'v'] {
        Some(ImportFormat::Csv)
    } else if name == seq!['j', 's', 'o', 'n'] {
        Some(ImportFormat::Json)
    } else if name == seq!['t', 'x', 't'] {
        Some(ImportFormat::Txt)
    } else {
        None
    }
}

/// The format a format name stands for.
pub fn parse_format(name: &str) -> (r: Option<ImportFormat>)
    ensures
        r == format_of(name@),
{
    let v = chars_of(name);
    if v.len() == 3 && v[0] == 'c' && v[1] == 's' && v[2] == 'v' {
        assert(v@ =~= seq!['c', 's', 'v']);
        Some(ImportFormat::Csv)
    } else if v.len() == 4 && v[0] == 'j' && v[1] == 's' && v[2] == 'o' && v[3] == 'n' {
        assert(v@ =~= seq!['j', 's', 'o', 'n']);
        Some(ImportFormat::Json)
    } else if v.len() == 3 && v[0] == 't' && v[1] == 'x' && v[2] == 't' {
        assert(v@ =~= seq!['t', 'x', 't']);
        Some(ImportFormat::Txt)
    } else {
        proof {
            if v@ == seq!['c', 's', 'v'] {
                assert(v@[0] == 'c' && v@[1] == 's' && v@[2] == 'v');
            }
            if v@ == seq!['j', 's', 'o', 'n'] {
                assert(v@[0] == 'j' && v@[1] == 's' && v@[2] == 'o' && v@[3] == 'n');
            }
            if v@ == seq!['t', 'x', 't'] {
                assert(v@[0] == 't' && v@[1] == 'x' && v@[2] == 't');
            }
        }
        None
    }
}

/// The separator of a line-based format.
pub open spec fn separator(f: ImportFormat) -> char {
    if f == ImportFormat::Csv {
        ','
    } else {
        '\t'
    }
}

/// A field as the format cleans it: trimmed, and for CSV also stripped of
/// double quotes at both ends.
pub open spec fn clean_field(x: Seq<char>, f: ImportFormat) -> Seq<char> {
    if f == ImportFormat::Csv {
        trim_quotes(trim(x))
    } else {
        trim(x)
    }
}

/// The pair a line gives: its first two fields, cleaned, when there are at
/// least two and neither is empty after cleaning.
pub open spec fn line_pair(line: Seq<char>, f: ImportFormat) -> Option<(Seq<char>, Seq<char>)> {
    match first_two_fields(line, separator(f)) {
        Some((a, b)) => {
            let w = clean_field(a, f);
            let m = clean_field(b, f);
            if w.len() > 0 && m.len() > 0 {
                Some((w, m))
            } else {
                None
            }
        },
        None => None,
    }
}

/// The pairs the lines give, in order.
pub open spec fn pairs_of_lines(ls: Seq<Seq<char>>, f: ImportFormat) -> Seq<(Seq<char>, Seq<char>)>
    decreases ls.len(),
{
    if ls.len() == 0 {
        Seq::empty()
    } else {
        let rest = pairs_of_lines(ls.drop_first(), f);
        match line_pair(ls[0], f) {
            Some(p) => seq![p] + rest,
            None => rest,
        }
    }
}

/// Whether a line is the column header: its fields clean to `word` and
/// `meaning`.
pub open spec fn is_header(line: Seq<char>, f: ImportFormat) -> bool {
    line_pair(line, f) == Some(("word"@, "meaning"@))
}

/// The pairs a text in a line-based format gives: a first line that is the
/// column header is skipped, every other line gives its pair.
pub open spec fn text_pairs(content: Seq<char>, f: ImportFormat) -> Seq<(Seq<char>, Seq<char>)> {
    let ls = lines(content);
    if ls.len() > 0 && is_header(ls[0], f) {
        pairs_of_lines(ls.drop_first(), f)
    } else {
        pairs_of_lines(ls, f)
    }
}

/// The items of a JSON array, each as its `word` and `meaning` members when
/// those are strings (`None` for a member that is missing or not a string);
/// `None` when the text is not a JSON array.
pub uninterp spec fn json_entries_of(text: Seq<char>) -> Option<Seq<(Option<Seq<char>>, Option<Seq<char>>)>>;

/// The value of a list of JSON items.
pub open spec fn entries_view(es: Seq<(Option<String>, Option<String>)>) -> Seq<(Option<Seq<char>>, Option<Seq<char>>)> {
    es.map_values(|e: (Option<String>, Option<String>)| (opt_view(e.0), opt_view(e.1)))
}

pub open spec fn opt_view(o: Option<String>) -> Option<Seq<char>> {
    match o {
        Some(s) => Some(s@),
        None => None,
    }
}

pub open spec fn entries_opt_view(r: Option<Vec<(Option<String>, Option<String>)>>) -> Option<Seq<(Option<Seq<char>>, Option<Seq<char>>)>> {
    match r {
        Some(v) => Some(entries_view(v@)),
        None => None,
    }
}

/// `serde_json::from_str::<Vec<serde_json::Value>>(content)`, each item read
/// as `item.get("word")` and `item.get("meaning")` through `Value::as_str`;
/// `None` when `from_str` fails. What this gives is named by
/// [`json_entries_of`], not described: no clause states how JSON is read.
#[verifier::external_body]
fn parse_json_entries(content: &str) -> (r: Option<Vec<(Option<String>, Option<String>)>>)
    ensures
        entries_opt_view(r) == json_entries_of(content@),
{
    let items: Vec<serde_json::Value> = serde_json::from_str(content).ok()?;
    let text = |v: Option<&serde_json::Value>| v.and_then(|x| x.as_str()).map(String::from);
    Some(items.iter().map(|it| (text(it.get("word")), text(it.get("meaning")))).collect())
}

/// The pair an item gives: both members present, strings, and not empty.
pub open spec fn entry_pair(e: (Option<Seq<char>>, Option<Seq<char>>)) -> Option<(Seq<char>, Seq<char>)> {
    match e {
        (Some(w), Some(m)) => if w.len() > 0 && m.len() > 0 {
            Some((w, m))
        } else {
            None
        },
        _ => None,
    }
}

/// The pairs the items of a JSON array give, in order.
pub open spec fn json_pairs(es: Seq<(Option<Seq<char>>, Option<Seq<char>>)>) -> Seq<(Seq<char>, Seq<char>)>
    decreases es.len(),
{
    if es.len() == 0 {
        Seq::empty()
    } else {
        let rest = json_pairs(es.drop_first());
        match entry_pair(es[0]) {
            Some(p) => seq![p] + rest,
            None => rest,
        }
    }
}

/// The pairs a text in format `f` gives.
pub open spec fn import_pairs(content: Seq<char>, f: ImportFormat) -> Seq<(Seq<char>, Seq<char>)> {
    if f == ImportFormat::Json {
        match json_entries_of(content) {
            Some(es) => json_pairs(es),
            None => Seq::empty(),
        }
    } else {
        text_pairs(content, f)
    }
}

/// The value of a list of pairs.
pub open spec fn pairs_view(ps: Seq<(String, String)>) -> Seq<(Seq<char>, Seq<char>)> {
    ps.map_values(|p: (String, String)| (p.0@, p.1@))
}

/// The cleaned field `v[lo..hi]` of a line in format `f`, as bounds.
fn clean_bounds(v: &Vec<char>, lo: usize, hi: usize, f: ImportFormat) -> (r: (usize, usize))
    requires
        lo <= hi <= v.len(),
        f != ImportFormat::Json,
    ensures
        lo <= r.0 <= r.1 <= hi,
        v@.subrange(r.0 as int, r.1 as int) == clean_field(v@.subrange(lo as int, hi as int), f),
{
    let (a, b) = trim_bounds(v, lo, hi, false);
    if f == ImportFormat::Csv {
        trim_bounds(v, a, b, true)
    } else {
        (a, b)
    }
}

/// The pair the line `v[lo..hi]` gives in format `f`.
fn pair_of_line(v: &Vec<char>, lo: usize, hi: usize, f: ImportFormat) -> (r: Option<(String, String)>)
    requires
        lo <= hi <= v.len(),
        f != ImportFormat::Json,
    ensures
        match r {
            Some(p) => line_pair(v@.subrange(lo as int, hi as int), f) == Some((p.0@, p.1@)),
            None => line_pair(v@.subrange(lo as int, hi as int), f) is None,
        },
{
    let sep = if f == ImportFormat::Csv {
        ','
    } else {
        '\t'
    };
    let ghost line = v@.subrange(lo as int, hi as int);
    let e1 = find_char(v, lo, hi, sep);
    if e1 >= hi {
        return None;
    }
    let e2 = find_char(v, e1 + 1, hi, sep);
    proof {
        let e = field_end(line, sep);
        assert(e == e1 - lo);
        let rest = line.skip(e + 1 as int);
        assert(rest =~= v@.subrange(e1 + 1, hi as int));
        assert(line.take(e as int) =~= v@.subrange(lo as int, e1 as int));
        assert(rest.take(field_end(rest, sep) as int) =~= v@.subrange(e1 + 1, e2 as int));
    }
    let (w0, w1) = clean_bounds(v, lo, e1, f);
    let (m0, m1) = clean_bounds(v, e1 + 1, e2, f);
    if w1 > w0 && m1 > m0 {
        Some((string_of_range(v, w0, w1), string_of_range(v, m0, m1)))
    } else {
        None
    }
}

/// The pairs a text in a line-based format gives.
pub fn pairs_from_text(content: &str, f: ImportFormat) -> (r: Vec<(String, String)>)
    requires
        f != ImportFormat::Json,
    ensures
        pairs_view(r@) == text_pairs(content@, f),
{
    let v = chars_of(content);
    let n = v.len();
    let mut out: Vec<(String, String)> = Vec::new();
    let mut pos: usize = 0;
    assert(v@.skip(0) =~= v@);
    while pos < n
        invariant
            f != ImportFormat::Json,
            v@ == content@,
            n == v@.len(),
            pos <= n,
            pos == 0 ==> out@.len() == 0,
            pos > 0 ==> pairs_view(out@) + pairs_of_lines(lines(v@.skip(pos as int)), f) == text_pairs(
                content@,
                f,
            ),
        decreases n - pos,
    {
        let ghost rest = v@.skip(pos as int);
        let ghost out0 = out@;
        let e = find_char(&v, pos, n, '\n');
        proof {
            assert(rest =~= v@.subrange(pos as int, n as int));
            lemma_field_end_bound(rest, '\n');
        }
        let line_end = if e < n && e > pos && v[e - 1] == '\r' {
            e - 1
        } else {
            e
        };
        let ghost line = if e < n {
            strip_cr(rest.take((e - pos) as int))
        } else {
            rest
        };
        proof {
            assert(rest.take((e - pos) as int) =~= v@.subrange(pos as int, e as int));
            if e < n {
                if e > pos && v@[e - 1] == '\r' {
                    assert(line =~= v@.subrange(pos as int, line_end as int));
                } else {
                    assert(line =~= v@.subrange(pos as int, line_end as int));
                }
                assert(lines(rest) == seq![line] + lines(rest.skip((e - pos) + 1)));
                assert(rest.skip((e - pos) + 1) =~= v@.skip(e + 1));
            } else {
                assert(line =~= v@.subrange(pos as int, line_end as int));
                assert(lines(rest) == seq![line]);
                assert(lines(v@.skip(n as int)) =~= Seq::<Seq<char>>::empty()) by {
                    assert(v@.skip(n as int) =~= Seq::<char>::empty());
                }
            }
        }
        let mut header = false;
        match pair_of_line(&v, pos, line_end, f) {
            Some(p) => {
                if pos == 0 && same_text(p.0.as_str(), "word") && same_text(p.1.as_str(), "meaning") {
                    header = true;
                } else {
                    out.push(p);
                }
            },
            None => {},
        }
        proof {
            let next = if e < n { v@.skip(e + 1) } else { v@.skip(n as int) };
            assert((seq![line] + lines(next)).drop_first() =~= lines(next));
            assert((seq![line] + lines(next))[0] == line);
            assert(header == (pos == 0 && is_header(line, f)));
            if pos == 0 {
                assert(rest =~= content@);
                assert(pairs_view(out0) =~= Seq::<(Seq<char>, Seq<char>)>::empty());
                if header {
                    assert(pairs_view(out@) =~= Seq::<(Seq<char>, Seq<char>)>::empty());
                    assert(pairs_view(out@) + pairs_of_lines(lines(next), f) =~= pairs_of_lines(lines(next), f));
                } else {
                    assert(pairs_view(out@) + pairs_of_lines(lines(next), f) =~= pairs_view(out0)
                        + pairs_of_lines(lines(rest), f));
                }
            } else {
                assert(pairs_view(out@) + pairs_of_lines(lines(next), f) =~= pairs_view(out0)
                    + pairs_of_lines(lines(rest), f));
            }
        }
        pos = if e < n {
            e + 1
        } else {
            n
        };
    }
    assert(pairs_of_lines(lines(v@.skip(pos as int)), f) =~= Seq::empty()) by {
        assert(v@.skip(pos as int) =~= Seq::<char>::empty());
    }
    if pos == 0 {
        assert(lines(content@) =~= Seq::<Seq<char>>::empty());
        assert(pairs_view(out@) =~= Seq::<(Seq<char>, Seq<char>)>::empty());
    }
    assert(pairs_view(out@) =~= pairs_view(out@) + Seq::<(Seq<char>, Seq<char>)>::empty());
    out
}

/// The pairs the items of a JSON array give.
pub fn pairs_from_entries(es: &Vec<(Option<String>, Option<String>)>) -> (r: Vec<(String, String)>)
    ensures
        pairs_view(r@) == json_pairs(entries_view(es@)),
{
    let mut out: Vec<(String, String)> = Vec::new();
    let n = es.len();
    assert(entries_view(es@).skip(0) =~= entries_view(es@));
    for i in 0..n
        invariant
            n == es@.len(),
            pairs_view(out@) + json_pairs(entries_view(es@).skip(i as int)) == json_pairs(entries_view(es@)),
    {
        let ghost out0 = out@;
        let ghost ev = entries_view(es@);
        proof {
            assert(ev.skip(i as int).drop_first() =~= ev.skip(i + 1));
            assert(ev.skip(i as int)[0] == ev[i as int]);
        }
        match &es[i] {
            (Some(w), Some(m)) => {
                if !w.as_str().is_empty() && !m.as_str().is_empty() {
                    out.push((w.clone(), m.clone()));
                }
            },
            _ => {},
        }
        proof {
            assert(pairs_view(out@) + json_pairs(ev.skip(i + 1)) =~= pairs_view(out0) + json_pairs(ev.skip(i as int)));
        }
    }
    assert(entries_view(es@).skip(n as int) =~= Seq::empty());
    assert(pairs_view(out@) =~= pairs_view(out@) + Seq::<(Seq<char>, Seq<char>)>::empty());
    out
}

/// The pairs a text in format `f` gives.
pub fn pairs_from(content: &str, f: ImportFormat) -> (r: Vec<(String, String)>)
    ensures
        pairs_view(r@) == import_pairs(content@, f),
{
    if f == ImportFormat::Json {
        match parse_json_entries(content) {
            Some(es) => pairs_from_entries(&es),
            None => {
                let r: Vec<(String, String)> = Vec::new();
                assert(pairs_view(r@) =~= Seq::empty());
                r
            },
        }
    } else {
        pairs_from_text(content, f)
    }
}

} // verus!

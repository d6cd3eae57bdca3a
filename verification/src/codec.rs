//! The text form of a cache: one line per entry, the key and the value
//! separated by a single horizontal tab.  A line that does not split into
//! exactly two tab-separated fields is malformed and is skipped when
//! loading.  A key or value that itself contains a tab or a newline cannot
//! be represented faithfully; that is a documented limitation of the format,
//! and the round-trip laws ask for tab- and newline-free fields.

use vstd::prelude::*;

verus! {

/// The field separator: a horizontal tab.
pub const FIELD_SEPARATOR: u8 = 9;

/// The line terminator: a newline (never part of a line handed to or from
/// the codec; the caller splits and joins lines).
pub const LINE_END: u8 = 10;

/// A field that the format can carry faithfully: free of tabs and newlines.
pub open spec fn valid_field(s: Seq<u8>) -> bool {
    forall|i: int| 0 <= i < s.len() ==> s[i] != FIELD_SEPARATOR && s[i] != LINE_END
}

/// Position `i` holds the one field separator of the line.
pub open spec fn sole_separator(line: Seq<u8>, i: int) -> bool {
    &&& 0 <= i < line.len()
    &&& line[i] == FIELD_SEPARATOR
    &&& forall|j: int| 0 <= j < line.len() && j != i ==> line[j] != FIELD_SEPARATOR
}

/// A line is well formed when it splits into exactly two tab-separated
/// fields.
pub open spec fn well_formed_line(line: Seq<u8>) -> bool {
    exists|i: int| sole_separator(line, i)
}

/// The position of the sole separator of a well-formed line.
pub open spec fn separator_at(line: Seq<u8>) -> int {
    choose|i: int| sole_separator(line, i)
}

/// The two fields of a line, or nothing when the line is malformed.
pub open spec fn line_fields(line: Seq<u8>) -> Option<(Seq<u8>, Seq<u8>)> {
    if well_formed_line(line) {
        let i = separator_at(line);
        Some((line.take(i), line.skip(i + 1)))
    } else {
        None
    }
}

/// The line rendering a key-value pair.
pub open spec fn render_line_spec(k: Seq<u8>, v: Seq<u8>) -> Seq<u8> {
    k + seq![FIELD_SEPARATOR] + v
}

/// The pairs read from a sequence of lines, in order, malformed lines
/// skipped.
pub open spec fn parse_lines_spec(lines: Seq<Seq<u8>>) -> Seq<(Seq<u8>, Seq<u8>)>
    decreases lines.len(),
{
    if lines.len() == 0 {
        Seq::empty()
    } else {
        let rest = parse_lines_spec(lines.drop_first());
        match line_fields(lines[0]) {
            Some(p) => seq![p] + rest,
            None => rest,
        }
    }
}

/// There is at most one sole separator position.
pub proof fn lemma_sole_separator_unique(line: Seq<u8>, i: int, j: int)
    requires
        sole_separator(line, i),
        sole_separator(line, j),
    ensures
        i == j,
{
    if i != j {
        assert(line[j] != FIELD_SEPARATOR);
    }
}

/// The abstract contents of a sequence of lines.
pub open spec fn line_views(lines: Seq<Vec<u8>>) -> Seq<Seq<u8>> {
    lines.map_values(|l: Vec<u8>| l@)
}

/// The abstract contents of a sequence of byte-string pairs.
pub open spec fn entry_views(es: Seq<(Vec<u8>, Vec<u8>)>) -> Seq<(Seq<u8>, Seq<u8>)> {
    es.map_values(|p: (Vec<u8>, Vec<u8>)| (p.0@, p.1@))
}

/// Renders one entry as its line: the key, a tab, the value.
pub fn render_line(key: &Vec<u8>, value: &Vec<u8>) -> (r: Vec<u8>)
    ensures
        r@ == render_line_spec(key@, value@),
{
    let mut r: Vec<u8> = Vec::new();
    let kn = key.len();
    let mut i: usize = 0;
    while i < kn
        invariant
            i <= kn,
            kn == key@.len(),
            r@ == key@.take(i as int),
        decreases kn - i,
    {
        r.push(key[i]);
        i += 1;
        proof {
            assert(key@.take(i as int) =~= key@.take(i - 1).push(key@[i - 1]));
        }
    }
    r.push(FIELD_SEPARATOR);
    proof {
        assert(key@.take(kn as int) =~= key@);
        assert(r@ =~= key@ + seq![FIELD_SEPARATOR]);
    }
    let vn = value.len();
    let mut j: usize = 0;
    while j < vn
        invariant
            j <= vn,
            vn == value@.len(),
            r@ == key@ + seq![FIELD_SEPARATOR] + value@.take(j as int),
        decreases vn - j,
    {
        r.push(value[j]);
        j += 1;
        proof {
            assert(key@ + seq![FIELD_SEPARATOR] + value@.take(j as int) =~= (key@ + seq![
                FIELD_SEPARATOR,
            ] + value@.take(j - 1)).push(value@[j - 1]));
        }
    }
    proof {
        assert(value@.take(vn as int) =~= value@);
    }
    r
}

/// Splits one line into its two tab-separated fields; a line with no tab or
/// with more than one is malformed and yields nothing.
pub fn parse_line(line: &Vec<u8>) -> (r: Option<(Vec<u8>, Vec<u8>)>)
    ensures
        match r {
            Some(p) => line_fields(line@) == Some((p.0@, p.1@)),
            None => line_fields(line@) is None,
        },
{
    let n = line.len();
    let mut i: usize = 0;
    while i < n && line[i] != FIELD_SEPARATOR
        invariant
            i <= n,
            n == line@.len(),
            forall|j: int| 0 <= j < i ==> line@[j] != FIELD_SEPARATOR,
        decreases n - i,
    {
        i += 1;
    }
    if i == n {
        proof {
            assert(!well_formed_line(line@));
        }
        return None;
    }
    let mut j: usize = i + 1;
    while j < n && line[j] != FIELD_SEPARATOR
        invariant
            i < j <= n,
            n == line@.len(),
            forall|m: int| i < m < j ==> line@[m] != FIELD_SEPARATOR,
        decreases n - j,
    {
        j += 1;
    }
    if j < n {
        proof {
            assert(line@[j as int] == FIELD_SEPARATOR);
            assert forall|m: int| !sole_separator(line@, m) by {
                if m == i {
                    assert(line@[j as int] == FIELD_SEPARATOR && j != i);
                } else if sole_separator(line@, m) {
                    assert(line@[i as int] != FIELD_SEPARATOR);
                }
            }
        }
        return None;
    }
    proof {
        assert(sole_separator(line@, i as int));
        let c = separator_at(line@);
        assert(sole_separator(line@, c));
        lemma_sole_separator_unique(line@, c, i as int);
    }
    let mut k: Vec<u8> = Vec::new();
    let mut a: usize = 0;
    while a < i
        invariant
            a <= i,
            i < n,
            n == line@.len(),
            k@ == line@.take(a as int),
        decreases i - a,
    {
        k.push(line[a]);
        a += 1;
        proof {
            assert(line@.take(a as int) =~= line@.take(a - 1).push(line@[a - 1]));
        }
    }
    let mut v: Vec<u8> = Vec::new();
    let mut b: usize = i + 1;
    while b < n
        invariant
            i + 1 <= b <= n,
            n == line@.len(),
            v@ == line@.subrange(i + 1, b as int),
        decreases n - b,
    {
        v.push(line[b]);
        b += 1;
        proof {
            assert(line@.subrange(i + 1, b as int) =~= line@.subrange(i + 1, b - 1).push(
                line@[b - 1],
            ));
        }
    }
    proof {
        assert(v@ =~= line@.skip(i + 1));
    }
    Some((k, v))
}

/// Parsing a single line yields its fields, or nothing when it is
/// malformed.
pub proof fn lemma_parse_single(l: Seq<u8>)
    ensures
        parse_lines_spec(seq![l]) == match line_fields(l) {
            Some(p) => seq![p],
            None => Seq::<(Seq<u8>, Seq<u8>)>::empty(),
        },
{
    let s = seq![l];
    assert(s[0] == l);
    assert(s.drop_first() =~= Seq::<Seq<u8>>::empty());
    assert(parse_lines_spec(Seq::<Seq<u8>>::empty()) == Seq::<(Seq<u8>, Seq<u8>)>::empty());
    match line_fields(l) {
        Some(p) => {
            assert(seq![p] + Seq::<(Seq<u8>, Seq<u8>)>::empty() =~= seq![p]);
        },
        None => {},
    }
}

/// Parsing a concatenation of line sequences parses one after the other.
pub proof fn lemma_parse_lines_concat(a: Seq<Seq<u8>>, b: Seq<Seq<u8>>)
    ensures
        parse_lines_spec(a + b) == parse_lines_spec(a) + parse_lines_spec(b),
    decreases a.len(),
{
    if a.len() == 0 {
        assert(a + b =~= b);
        assert(parse_lines_spec(a) + parse_lines_spec(b) =~= parse_lines_spec(b));
    } else {
        assert((a + b).len() > 0);
        assert((a + b)[0] == a[0]);
        assert((a + b).drop_first() =~= a.drop_first() + b);
        lemma_parse_lines_concat(a.drop_first(), b);
        match line_fields(a[0]) {
            Some(p) => {
                assert(seq![p] + (parse_lines_spec(a.drop_first()) + parse_lines_spec(b)) =~= (
                seq![p] + parse_lines_spec(a.drop_first())) + parse_lines_spec(b));
            },
            None => {},
        }
    }
}

/// Reads the pairs out of a sequence of lines, in order, skipping every
/// malformed line.
pub fn parse_lines(lines: &Vec<Vec<u8>>) -> (r: Vec<(Vec<u8>, Vec<u8>)>)
    ensures
        entry_views(r@) == parse_lines_spec(line_views(lines@)),
{
    let n = lines.len();
    let mut r: Vec<(Vec<u8>, Vec<u8>)> = Vec::new();
    let mut i: usize = 0;
    while i < n
        invariant
            i <= n,
            n == lines@.len(),
            entry_views(r@) == parse_lines_spec(line_views(lines@).take(i as int)),
        decreases n - i,
    {
        let ghost prefix = line_views(lines@).take(i as int);
        let parsed = parse_line(&lines[i]);
        proof {
            assert(line_views(lines@).take(i + 1) =~= prefix + seq![lines@[i as int]@]);
            lemma_parse_lines_concat(prefix, seq![lines@[i as int]@]);
            lemma_parse_single(lines@[i as int]@);
        }
        match parsed {
            Some(p) => {
                let ghost rv = r@;
                r.push(p);
                proof {
                    assert(entry_views(r@) =~= entry_views(rv).push((p.0@, p.1@)));
                    assert(parse_lines_spec(seq![lines@[i as int]@]) =~= seq![(p.0@, p.1@)]);
                    assert(entry_views(rv).push((p.0@, p.1@)) =~= entry_views(rv) + seq![
                        (p.0@, p.1@),
                    ]);
                }
            },
            None => {
                proof {
                    assert(parse_lines_spec(seq![lines@[i as int]@]) =~= Seq::<(
                        Seq<u8>,
                        Seq<u8>,
                    )>::empty());
                    assert(entry_views(r@) + Seq::<(Seq<u8>, Seq<u8>)>::empty() =~= entry_views(
                        r@,
                    ));
                }
            },
        }
        i += 1;
    }
    proof {
        assert(line_views(lines@).take(n as int) =~= line_views(lines@));
    }
    r
}

} // verus!

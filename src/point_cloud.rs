//! Tokenizer for point files: plain text, one point per line, three fields
//! per line separated by a single tab, in X, Y, Z order, with no header.
//!
//! The tokenizer works on the file's bytes and hands back the three fields
//! of each line; turning a field into a number is left to the caller.
use vstd::prelude::*;
use vstd::slice::slice_to_vec;

verus! {

/// Byte that ends a line.
pub const NEWLINE: u8 = 10;

/// Byte that may precede a newline as part of the line ending.
pub const CARRIAGE_RETURN: u8 = 13;

/// Byte that separates the fields of a line.
pub const TAB: u8 = 9;

/// The pieces of `s` between occurrences of `sep`, read left to right: the
/// empty text is one empty piece, a separator starts a new empty piece, and
/// any other byte extends the last piece.
pub open spec fn split(s: Seq<u8>, sep: u8) -> Seq<Seq<u8>>
    decreases s.len(),
{
    if s.len() == 0 {
        seq![Seq::<u8>::empty()]
    } else {
        let prev = split(s.drop_last(), sep);
        if s.last() == sep {
            prev.push(Seq::<u8>::empty())
        } else {
            prev.update(prev.len() - 1, prev.last().push(s.last()))
        }
    }
}

/// `split` never returns an empty sequence.
pub proof fn lemma_split_nonempty(s: Seq<u8>, sep: u8)
    ensures
        split(s, sep).len() >= 1,
    decreases s.len(),
{
    if s.len() > 0 {
        lemma_split_nonempty(s.drop_last(), sep);
    }
}

/// The views of a vector of byte vectors.
pub open spec fn views(v: Seq<Vec<u8>>) -> Seq<Seq<u8>> {
    v.map_values(|b: Vec<u8>| b@)
}

/// Splits `s` at every occurrence of `sep`.
pub fn split_on(s: &[u8], sep: u8) -> (r: Vec<Vec<u8>>)
    ensures
        views(r@) == split(s@, sep),
{
    let mut done: Vec<Vec<u8>> = Vec::new();
    let mut cur: Vec<u8> = Vec::new();
    let mut i: usize = 0;
    proof {
        assert(s@.subrange(0, 0) =~= Seq::<u8>::empty());
        assert(views(done@).push(cur@) =~= split(s@.subrange(0, 0), sep));
    }
    while i < s.len()
        invariant
            i <= s@.len(),
            views(done@).push(cur@) == split(s@.subrange(0, i as int), sep),
        decreases s@.len() - i,
    {
        let b = s[i];
        proof {
            let t = s@.subrange(0, i as int + 1);
            assert(t.drop_last() =~= s@.subrange(0, i as int));
            assert(t.last() == b);
            lemma_split_nonempty(t.drop_last(), sep);
        }
        if b == sep {
            let piece = cur;
            done.push(piece);
            cur = Vec::new();
            proof {
                assert(views(done@).push(cur@) =~= split(s@.subrange(0, i as int + 1), sep));
            }
        } else {
            cur.push(b);
            proof {
                assert(views(done@).push(cur@) =~= split(s@.subrange(0, i as int + 1), sep));
            }
        }
        i = i + 1;
    }
    proof {
        assert(s@.subrange(0, s@.len() as int) =~= s@);
    }
    done.push(cur);
    proof {
        assert(views(done@) =~= split(s@, sep));
    }
    done
}

/// `l` without one trailing carriage return, if it ends with one.
pub open spec fn strip_cr(l: Seq<u8>) -> Seq<u8> {
    if l.len() > 0 && l.last() == CARRIAGE_RETURN {
        l.drop_last()
    } else {
        l
    }
}

/// Each of `ls` without its trailing carriage return.
pub open spec fn strip_each(ls: Seq<Seq<u8>>) -> Seq<Seq<u8>> {
    ls.map_values(|l: Seq<u8>| strip_cr(l))
}

/// The lines of `text`: the pieces between newlines, where a carriage return
/// just before a newline belongs to the line ending, and where a final
/// newline ends the last line rather than starting an empty one.
pub open spec fn lines_of(text: Seq<u8>) -> Seq<Seq<u8>> {
    let pieces = split(text, NEWLINE);
    let ended = strip_each(pieces.drop_last());
    if pieces.last().len() == 0 {
        ended
    } else {
        ended.push(pieces.last())
    }
}

/// Splits `text` into its lines.
pub fn split_lines(text: &[u8]) -> (r: Vec<Vec<u8>>)
    ensures
        views(r@) == lines_of(text@),
{
    let pieces = split_on(text, NEWLINE);
    let ghost ps = split(text@, NEWLINE);
    proof {
        lemma_split_nonempty(text@, NEWLINE);
    }
    let last = pieces.len() - 1;
    let mut out: Vec<Vec<u8>> = Vec::new();
    let mut j: usize = 0;
    while j < last
        invariant
            views(pieces@) == ps,
            ps.len() >= 1,
            last == ps.len() - 1,
            j <= last,
            views(out@) == strip_each(ps.subrange(0, j as int)),
        decreases last - j,
    {
        let mut l = slice_to_vec(pieces[j].as_slice());
        assert(l@ == ps[j as int]) by {
            assert(views(pieces@)[j as int] == pieces@[j as int]@);
        }
        let n = l.len();
        if n > 0 && l[n - 1] == CARRIAGE_RETURN {
            l.truncate(n - 1);
            assert(l@ =~= ps[j as int].drop_last());
        }
        assert(l@ == strip_cr(ps[j as int]));
        let ghost prev = out@;
        out.push(l);
        proof {
            assert(views(out@) =~= views(prev).push(l@));
            assert(strip_each(ps.subrange(0, j as int + 1)) =~= strip_each(
                ps.subrange(0, j as int),
            ).push(strip_cr(ps[j as int])));
        }
        j = j + 1;
    }
    proof {
        assert(ps.subrange(0, last as int) =~= ps.drop_last());
    }
    if pieces[last].len() > 0 {
        let l = slice_to_vec(pieces[last].as_slice());
        assert(l@ == ps.last()) by {
            assert(views(pieces@)[last as int] == pieces@[last as int]@);
        }
        out.push(l);
        proof {
            assert(views(out@) =~= lines_of(text@));
        }
    } else {
        assert(views(pieces@)[last as int] == pieces@[last as int]@);
    }
    out
}

/// The three fields of one line of a point file, as bytes.
#[derive(Debug)]
pub struct PointFields {
    pub x: Vec<u8>,
    pub y: Vec<u8>,
    pub z: Vec<u8>,
}

/// Why the text of a point file cannot be split into points.
#[derive(Debug, Clone, Copy, PartialEq, Eq, Structural)]
pub enum FormatError {
    /// The line at `line_index` (counted from 0) has `found` tab-separated
    /// fields rather than three.
    FieldCount { line_index: usize, found: usize },
}

/// The number of fields of every line of a point file.
pub const FIELDS_PER_LINE: usize = 3;

/// Whether `line` splits into exactly three fields.
pub open spec fn is_point_line(line: Seq<u8>) -> bool {
    split(line, TAB).len() == FIELDS_PER_LINE as int
}

/// Whether `p` holds the three fields of `line`, in order.
pub open spec fn holds_fields_of(p: PointFields, line: Seq<u8>) -> bool {
    &&& is_point_line(line)
    &&& p.x@ == split(line, TAB)[0]
    &&& p.y@ == split(line, TAB)[1]
    &&& p.z@ == split(line, TAB)[2]
}

/// Splits the text of a point file into the fields of its points, one per
/// line. Fails on the first line that does not have exactly three fields.
pub fn parse_records(text: &[u8]) -> (r: Result<Vec<PointFields>, FormatError>)
    ensures
        r is Ok <==> forall|i: int| 0 <= i < lines_of(text@).len() ==> is_point_line(
            #[trigger] lines_of(text@)[i],
        ),
        r matches Ok(v) ==> v@.len() == lines_of(text@).len() && forall|i: int|
            0 <= i < v@.len() ==> holds_fields_of(#[trigger] v@[i], lines_of(text@)[i]),
        r matches Err(FormatError::FieldCount { line_index, found }) ==> {
            &&& line_index < lines_of(text@).len()
            &&& found == split(lines_of(text@)[line_index as int], TAB).len()
            &&& found != FIELDS_PER_LINE
            &&& forall|i: int| 0 <= i < line_index ==> is_point_line(#[trigger] lines_of(text@)[i])
        },
{
    let lines = split_lines(text);
    let ghost ls = lines_of(text@);
    let mut out: Vec<PointFields> = Vec::new();
    let mut i: usize = 0;
    while i < lines.len()
        invariant
            ls == lines_of(text@),
            views(lines@) == ls,
            i <= ls.len(),
            out@.len() == i,
            forall|k: int| 0 <= k < i ==> holds_fields_of(#[trigger] out@[k], ls[k]),
        decreases ls.len() - i,
    {
        assert(views(lines@)[i as int] == lines@[i as int]@);
        let mut fields = split_on(lines[i].as_slice(), TAB);
        let ghost fs = split(ls[i as int], TAB);
        let found = fields.len();
        if found != FIELDS_PER_LINE {
            proof {
                assert(!is_point_line(ls[i as int]));
                assert forall|k: int| 0 <= k < i implies is_point_line(#[trigger] ls[k]) by {
                    assert(holds_fields_of(out@[k], ls[k]));
                }
            }
            return Err(FormatError::FieldCount { line_index: i, found });
        }
        assert(views(fields@)[0] == fields@[0]@);
        assert(views(fields@)[1] == fields@[1]@);
        assert(views(fields@)[2] == fields@[2]@);
        let z = fields.pop().unwrap();
        let y = fields.pop().unwrap();
        let x = fields.pop().unwrap();
        let p = PointFields { x, y, z };
        assert(holds_fields_of(p, ls[i as int]));
        out.push(p);
        i = i + 1;
    }
    proof {
        assert forall|k: int| 0 <= k < ls.len() implies is_point_line(#[trigger] ls[k]) by {
            assert(holds_fields_of(out@[k], ls[k]));
        }
    }
    Ok(out)
}

} // verus!

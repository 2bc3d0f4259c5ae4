//! The layout description: one part per line, `name, offset[, size][,
//! padding_byte]`, with `#`-prefixed and blank lines ignored and lines of
//! fewer than two fields silently skipped.

use vstd::prelude::*;

use crate::parse::{parse_number_chars, parse_number_spec, str_chars, trim_bounds, trimmed};
use crate::parts::{part_views, FirmwareError, FirmwarePart, PartV};

verus! {

/// Relies on std's `String::push`: appends the given character to the end of
/// the string.
pub assume_specification[ String::push ](s: &mut String, c: char)
    ensures
        final(s)@ == old(s)@.push(c),
;

/// The views of a sequence of character vectors, in order.
pub open spec fn vecs_view(r: Seq<Vec<char>>) -> Seq<Seq<char>> {
    r.map(|i: int, f: Vec<char>| f@)
}

/// `s` split on `sep`: the fields between separators, in order, empty fields
/// kept. A string without a separator is one field; the empty string is one
/// empty field.
pub open spec fn split_on(s: Seq<char>, sep: char) -> Seq<Seq<char>>
    decreases s.len(),
{
    if s.len() == 0 {
        seq![Seq::<char>::empty()]
    } else {
        let r = split_on(s.drop_last(), sep);
        if s.last() == sep {
            r.push(Seq::<char>::empty())
        } else {
            r.update(r.len() - 1, r.last().push(s.last()))
        }
    }
}

/// A split always yields at least one field.
pub proof fn lemma_split_on_len(s: Seq<char>, sep: char)
    ensures
        split_on(s, sep).len() >= 1,
    decreases s.len(),
{
    if s.len() > 0 {
        lemma_split_on_len(s.drop_last(), sep);
    }
}

/// `l` with one trailing carriage return removed, as line splitting does.
pub open spec fn strip_cr(l: Seq<char>) -> Seq<char> {
    if l.len() > 0 && l.last() == '\r' {
        l.drop_last()
    } else {
        l
    }
}

/// The lines of the description: split on `'\n'`, a trailing carriage return
/// of each line removed, and no final empty line after a trailing newline.
pub open spec fn config_lines(s: Seq<char>) -> Seq<Seq<char>> {
    if s.len() == 0 {
        Seq::<Seq<char>>::empty()
    } else {
        let raw = split_on(s, '\n');
        let cut = if s.last() == '\n' {
            raw.drop_last()
        } else {
            raw
        };
        cut.map(|i: int, l: Seq<char>| strip_cr(l))
    }
}

/// What one line of the description denotes: nothing, a part, or a hard
/// parse failure.
pub ghost enum LineParse {
    Skip,
    Bad,
    Part(PartV),
}

/// Parses one line: trims it, skips blank and `#`-prefixed lines and lines of
/// fewer than two comma-separated fields, and otherwise reads name, offset,
/// optional size (blank means unresolved), and optional padding byte (the low
/// 8 bits of the parsed value; `0xFF` when absent).
pub open spec fn parsed_line(line: Seq<char>) -> LineParse {
    let t = trimmed(line);
    if t.len() == 0 || t[0] == '#' {
        LineParse::Skip
    } else {
        let fields = split_on(t, ',');
        if fields.len() < 2 {
            LineParse::Skip
        } else {
            match parse_number_spec(fields[1]) {
                None => LineParse::Bad,
                Some(offset) => {
                    let has_size = fields.len() > 2 && trimmed(fields[2]).len() > 0;
                    match (if has_size {
                        parse_number_spec(fields[2])
                    } else {
                        Some(0u64)
                    }) {
                        None => LineParse::Bad,
                        Some(size) => match (if fields.len() > 3 {
                            parse_number_spec(fields[3])
                        } else {
                            Some(0xFFu64)
                        }) {
                            None => LineParse::Bad,
                            Some(pad) => LineParse::Part(
                                PartV {
                                    name: trimmed(fields[0]),
                                    offset,
                                    size,
                                    padding_byte: (pad % 256) as u8,
                                    use_custom_padding: fields.len() > 3,
                                    has_explicit_size: has_size,
                                },
                            ),
                        },
                    }
                },
            }
        }
    }
}

/// The parts declared by the given lines, in order, or a failure when any
/// line holds a malformed numeric field.
pub open spec fn parsed_parts(lns: Seq<Seq<char>>) -> Result<Seq<PartV>, ()>
    decreases lns.len(),
{
    if lns.len() == 0 {
        Ok(Seq::<PartV>::empty())
    } else {
        match parsed_parts(lns.drop_last()) {
            Err(()) => Err(()),
            Ok(ps) => match parsed_line(lns.last()) {
                LineParse::Skip => Ok(ps),
                LineParse::Bad => Err(()),
                LineParse::Part(p) => Ok(ps.push(p)),
            },
        }
    }
}

/// What a whole description denotes: its parts in declaration order, or a
/// failure.
pub open spec fn parse_config_spec(s: Seq<char>) -> Result<Seq<PartV>, ()> {
    parsed_parts(config_lines(s))
}

/// Once some prefix of the lines fails, the whole description fails.
proof fn lemma_parsed_parts_prefix_err(lns: Seq<Seq<char>>, m: int)
    requires
        0 <= m <= lns.len(),
        parsed_parts(lns.take(m)) is Err,
    ensures
        parsed_parts(lns) is Err,
    decreases lns.len() - m,
{
    if m == lns.len() {
        assert(lns.take(m) =~= lns);
    } else {
        assert(lns.take(m + 1).drop_last() =~= lns.take(m));
        lemma_parsed_parts_prefix_err(lns, m + 1);
    }
}

/// Splits `v[start..end]` on `sep`, each field as its own vector.
pub(crate) fn split_chars(v: &Vec<char>, start: usize, end: usize, sep: char) -> (r: Vec<
    Vec<char>,
>)
    requires
        start <= end <= v@.len(),
    ensures
        vecs_view(r@) == split_on(v@.subrange(start as int, end as int), sep),
        r@.len() >= 1,
{
    let ghost s = v@.subrange(start as int, end as int);
    let mut fields: Vec<Vec<char>> = Vec::new();
    fields.push(Vec::new());
    proof {
        assert(s.take(0) =~= Seq::<char>::empty());
        assert(vecs_view(fields@) =~~= split_on(s.take(0), sep));
    }
    let mut i = start;
    while i < end
        invariant
            start <= i <= end <= v@.len(),
            s == v@.subrange(start as int, end as int),
            fields@.len() >= 1,
            vecs_view(fields@) == split_on(s.take(i - start), sep),
        decreases end - i,
    {
        let ghost k = i - start;
        proof {
            assert(s.take(k + 1).drop_last() =~= s.take(k));
            assert(s.take(k + 1).last() == s[k]);
            assert(s[k] == v@[i as int]);
        }
        let c = v[i];
        if c == sep {
            fields.push(Vec::new());
            proof {
                assert(vecs_view(fields@) =~~= split_on(s.take(k + 1), sep));
            }
        } else {
            let mut f = fields.pop().unwrap();
            f.push(c);
            fields.push(f);
            proof {
                assert(vecs_view(fields@) =~~= split_on(s.take(k + 1), sep));
            }
        }
        i += 1;
    }
    proof {
        assert(s.take(end - start) =~= s);
    }
    fields
}

/// The characters `v[start..end]`, as an owned string.
pub(crate) fn chars_to_string(v: &Vec<char>, start: usize, end: usize) -> (r: String)
    requires
        start <= end <= v@.len(),
    ensures
        r@ == v@.subrange(start as int, end as int),
{
    let mut s = String::new();
    let mut i = start;
    while i < end
        invariant
            start <= i <= end <= v@.len(),
            s@ == v@.subrange(start as int, i as int),
        decreases end - i,
    {
        s.push(v[i]);
        proof {
            assert(v@.subrange(start as int, i as int).push(v@[i as int]) =~= v@.subrange(
                start as int,
                i + 1,
            ));
        }
        i += 1;
    }
    s
}

/// The lines of the description, as character vectors.
fn content_lines(chars: &Vec<char>) -> (r: Vec<Vec<char>>)
    ensures
        vecs_view(r@) == config_lines(chars@),
{
    let n = chars.len();
    if n == 0 {
        let r: Vec<Vec<char>> = Vec::new();
        proof {
            assert(vecs_view(r@) =~~= config_lines(chars@));
        }
        return r;
    }
    let mut cut = split_chars(chars, 0, n, '\n');
    proof {
        assert(chars@.subrange(0, n as int) =~= chars@);
        lemma_split_on_len(chars@, '\n');
    }
    if chars[n - 1] == '\n' {
        // A trailing newline does not open a final empty line.
        let _ = cut.pop();
    }
    let ghost cutv = vecs_view(cut@);
    proof {
        if chars@.last() == '\n' {
            assert(cutv =~~= split_on(chars@, '\n').drop_last());
        }
    }
    let mut lines: Vec<Vec<char>> = Vec::new();
    let mut rest = cut;
    while rest.len() > 0
        invariant
            lines@.len() + rest@.len() == cutv.len(),
            forall|j: int| 0 <= j < lines@.len() ==> #[trigger] lines@[j]@ == strip_cr(cutv[j]),
            forall|j: int|
                0 <= j < rest@.len() ==> #[trigger] rest@[j]@ == cutv[lines@.len() + j],
        decreases rest@.len(),
    {
        let ghost k = lines@.len() as int;
        let ghost rv = rest@;
        let mut f = rest.remove(0);
        proof {
            assert(rest@ =~= rv.skip(1));
            assert(f@ == cutv[k]);
        }
        if f.len() > 0 && f[f.len() - 1] == '\r' {
            let _ = f.pop();
            proof {
                assert(f@ =~= strip_cr(cutv[k]));
            }
        }
        lines.push(f);
    }
    proof {
        assert(vecs_view(lines@) =~~= config_lines(chars@));
    }
    lines
}

/// Parses one line of the description: `None` for a line that declares
/// nothing, the declared part otherwise; a malformed numeric field is a hard
/// parse failure.
fn parse_line(line: &Vec<char>) -> (r: Result<Option<FirmwarePart>, FirmwareError>)
    ensures
        match r {
            Ok(Some(p)) => parsed_line(line@) == LineParse::Part(p@),
            Ok(None) => parsed_line(line@) is Skip,
            Err(e) => parsed_line(line@) is Bad && e is Parse,
        },
{
    let (a, b) = trim_bounds(line, 0, line.len());
    let ghost t = trimmed(line@);
    proof {
        assert(line@.subrange(0, line@.len() as int) =~= line@);
    }
    if a == b {
        return Ok(None);
    }
    if line[a] == '#' {
        proof {
            assert(t[0] == '#');
        }
        return Ok(None);
    }
    let fields = split_chars(line, a, b, ',');
    let ghost fs = split_on(t, ',');
    proof {
        assert(fields@.len() == fs.len());
    }
    if fields.len() < 2 {
        return Ok(None);
    }
    let f1 = &fields[1];
    proof {
        assert(f1@ == fs[1]);
        assert(f1@.subrange(0, f1@.len() as int) =~= f1@);
    }
    let offset = match parse_number_chars(f1, 0, f1.len()) {
        Ok(v) => v,
        Err(e) => {
            return Err(e);
        },
    };
    let mut has_size = false;
    let mut size: u64 = 0;
    if fields.len() > 2 {
        let f2 = &fields[2];
        proof {
            assert(f2@ == fs[2]);
            assert(f2@.subrange(0, f2@.len() as int) =~= f2@);
        }
        let (c, d) = trim_bounds(f2, 0, f2.len());
        if c < d {
            has_size = true;
            size = match parse_number_chars(f2, 0, f2.len()) {
                Ok(v) => v,
                Err(e) => {
                    return Err(e);
                },
            };
        }
    }
    let mut use_custom_padding = false;
    let mut padding_byte: u8 = 0xFF;
    if fields.len() > 3 {
        let f3 = &fields[3];
        proof {
            assert(f3@ == fs[3]);
            assert(f3@.subrange(0, f3@.len() as int) =~= f3@);
        }
        use_custom_padding = true;
        let pad = match parse_number_chars(f3, 0, f3.len()) {
            Ok(v) => v,
            Err(e) => {
                return Err(e);
            },
        };
        padding_byte = (pad % 256) as u8;
    }
    let f0 = &fields[0];
    proof {
        assert(f0@ == fs[0]);
        assert(f0@.subrange(0, f0@.len() as int) =~= f0@);
    }
    let (na, nb) = trim_bounds(f0, 0, f0.len());
    let name = chars_to_string(f0, na, nb);
    let part = FirmwarePart {
        name,
        offset,
        size,
        padding_byte,
        use_custom_padding,
        has_explicit_size: has_size,
    };
    Ok(Some(part))
}

/// Parses a whole layout description into its parts, in declaration order.
/// Any malformed numeric field aborts the whole operation.
#[verifier::loop_isolation(false)]
pub fn parse_config(content: &str) -> (r: Result<Vec<FirmwarePart>, FirmwareError>)
    ensures
        match r {
            Ok(parts) => parse_config_spec(content@) == Ok::<_, ()>(part_views(parts@)),
            Err(e) => parse_config_spec(content@) is Err && e is Parse,
        },
{
    let chars = str_chars(content);
    let lines = content_lines(&chars);
    let ghost lv = config_lines(content@);
    let mut parts: Vec<FirmwarePart> = Vec::new();
    proof {
        assert(lv.take(0) =~= Seq::<Seq<char>>::empty());
        assert(part_views(parts@) =~= Seq::<PartV>::empty());
    }
    let mut li: usize = 0;
    while li < lines.len()
        invariant
            li <= lines@.len(),
            vecs_view(lines@) == lv,
            parsed_parts(lv.take(li as int)) == Ok::<_, ()>(part_views(parts@)),
        decreases lines@.len() - li,
    {
        let ghost k = li as int;
        proof {
            assert(lv.take(k + 1).drop_last() =~= lv.take(k));
            assert(lv.take(k + 1).last() == lv[k]);
            assert(lines@[k]@ == lv[k]);
        }
        match parse_line(&lines[li]) {
            Ok(None) => {},
            Ok(Some(part)) => {
                let ghost prev = parts@;
                let ghost pv = part@;
                parts.push(part);
                proof {
                    assert(part_views(parts@) =~= part_views(prev).push(pv));
                }
            },
            Err(e) => {
                proof {
                    lemma_parsed_parts_prefix_err(lv, k + 1);
                }
                return Err(e);
            },
        }
        proof {
            assert(parsed_parts(lv.take(k + 1)) == Ok::<_, ()>(part_views(parts@)));
        }
        li += 1;
    }
    proof {
        assert(lv.take(lines@.len() as int) =~= lv);
    }
    Ok(parts)
}

} // verus!

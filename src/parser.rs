use vstd::prelude::*;
use crate::chars::{alphanumeric, is_alphanumeric, is_space, space, trim, trimmed};
use crate::path::{PathError, Seg, Segment, Spath, conds_view, segs_view};
use crate::text::{chars_of, push_chars, string_from_chars};

verus! {

/// The message for a `[` that does not open a segment.
pub const UNEXPECTED_SQ_BRACKET_MSG: &'static str =
    "unexpected '['. '[' may only appear at the start of a segment (immediately after '/'). Fix: insert a '/' before it (e.g. '/foo/[...]') or remove '['.";

/// The message for a non-empty text that does not start with `/`.
pub const NOT_A_PATH_MSG: &'static str = "expected a path starting with '/' or empty input";

pub open spec fn is_ident_char(c: char) -> bool {
    alphanumeric(c) || c == '_' || c == '-'
}

pub open spec fn is_value_char(c: char) -> bool {
    c != ',' && c != ']'
}

/// The first position at or after `p` that holds no whitespace.
pub open spec fn skip_ws(s: Seq<char>, p: int) -> int
    decreases s.len() - p,
{
    if 0 <= p < s.len() && is_space(s[p]) {
        skip_ws(s, p + 1)
    } else {
        p
    }
}

/// The end of the run of name characters that starts at `p`.
pub open spec fn ident_end(s: Seq<char>, p: int) -> int
    decreases s.len() - p,
{
    if 0 <= p < s.len() && is_ident_char(s[p]) {
        ident_end(s, p + 1)
    } else {
        p
    }
}

/// The end of the run of value characters that starts at `p`.
pub open spec fn value_end(s: Seq<char>, p: int) -> int
    decreases s.len() - p,
{
    if 0 <= p < s.len() && is_value_char(s[p]) {
        value_end(s, p + 1)
    } else {
        p
    }
}

pub open spec fn at(s: Seq<char>, p: int, c: char) -> bool {
    0 <= p < s.len() && s[p] == c
}

/// One condition `name = value` at `p`: its name, its trimmed value, and the
/// position after it.
pub open spec fn parse_cond(s: Seq<char>, p: int) -> Option<(Seq<char>, Seq<char>, int)> {
    let lead = skip_ws(s, p);
    let name_end = ident_end(s, lead);
    let mid = skip_ws(s, name_end);
    let tail = skip_ws(s, mid + 1);
    let value_stop = value_end(s, tail);
    if name_end == lead || !at(s, mid, '=') || value_stop == tail {
        None
    } else {
        Some((trim(s.subrange(lead, name_end)), trim(s.subrange(tail, value_stop)), skip_ws(s, value_stop)))
    }
}

/// The conditions that follow a first one ending at `q`, each after a comma,
/// and the position after the last one.
pub open spec fn more_conds(s: Seq<char>, q: int) -> (Seq<(Seq<char>, Seq<char>)>, int)
    decreases s.len() - q,
{
    let sep = skip_ws(s, q);
    if at(s, sep, ',') {
        match parse_cond(s, skip_ws(s, sep + 1)) {
            Some(c) => if q < c.2 <= s.len() {
                let rest = more_conds(s, c.2);
                (seq![(c.0, c.1)] + rest.0, rest.1)
            } else {
                (Seq::empty(), q)
            },
            None => (Seq::empty(), q),
        }
    } else {
        (Seq::empty(), q)
    }
}

/// A filter segment `[c1, c2, ...]` at `p`, with surrounding whitespace.
pub open spec fn parse_filter(s: Seq<char>, p: int) -> Option<(Seq<(Seq<char>, Seq<char>)>, int)> {
    let lead = skip_ws(s, p);
    if !at(s, lead, '[') {
        None
    } else {
        match parse_cond(s, skip_ws(s, lead + 1)) {
            None => None,
            Some(c) => {
                let rest = more_conds(s, c.2);
                let sep = skip_ws(s, rest.1);
                if at(s, sep, ']') {
                    Some((seq![(c.0, c.1)] + rest.0, skip_ws(s, sep + 1)))
                } else {
                    None
                }
            },
        }
    }
}

/// A field name at `p`, decoding `~0` to `~` and `~1` to `/`; it ends before
/// `/`, `[`, or a `~` that starts no escape.
pub open spec fn parse_key(s: Seq<char>, p: int) -> (Seq<char>, int)
    decreases s.len() - p,
{
    if 0 <= p && p + 1 < s.len() && s[p] == '~' && (s[p + 1] == '0' || s[p + 1] == '1') {
        let rest = parse_key(s, p + 2);
        (seq![if s[p + 1] == '0' { '~' } else { '/' }] + rest.0, rest.1)
    } else if 0 <= p < s.len() && s[p] != '/' && s[p] != '[' && s[p] != '~' {
        let rest = parse_key(s, p + 1);
        (seq![s[p]] + rest.0, rest.1)
    } else {
        (Seq::empty(), p)
    }
}

/// One segment at `p`: a filter where one can be read, else a field name.
pub open spec fn parse_segment(s: Seq<char>, p: int) -> (Seg, int) {
    match parse_filter(s, p) {
        Some(f) => (Seg::Filter(f.0), f.1),
        None => (Seg::Field(parse_key(s, p).0), parse_key(s, p).1),
    }
}

/// The segments from `p` on, separated by `/`, and the position where they end.
pub open spec fn parse_segments(s: Seq<char>, p: int) -> (Seq<Seg>, int)
    decreases s.len() - p,
{
    let (seg, q) = parse_segment(s, p);
    if p <= q < s.len() && s[q] == '/' {
        let rest = parse_segments(s, q + 1);
        (seq![seg] + rest.0, rest.1)
    } else {
        (seq![seg], q)
    }
}

/// The message for the unexpected character `c`.
pub open spec fn trailing_message(c: char) -> Seq<char> {
    if c == '[' {
        UNEXPECTED_SQ_BRACKET_MSG@
    } else {
        "unexpected character '"@ + seq![c]
            + "'. Fix: remove it or check the segment syntax at this position."@
    }
}

/// A path's text read as segments, or the character position where it stops
/// fitting the grammar, with the message for it.
pub open spec fn read_path(s: Seq<char>) -> Result<Seq<Seg>, (int, Seq<char>)> {
    if s.len() == 0 {
        Ok(Seq::empty())
    } else if s[0] != '/' {
        Err((0, NOT_A_PATH_MSG@))
    } else {
        let (segs, q) = parse_segments(s, 1);
        if q == s.len() {
            Ok(segs)
        } else {
            Err((q, trailing_message(s[q])))
        }
    }
}

fn skip_ws_at(s: &Vec<char>, p: usize) -> (r: usize)
    requires
        p <= s@.len(),
    ensures
        r == skip_ws(s@, p as int),
        p <= r <= s@.len(),
{
    let mut i = p;
    while i < s.len() && space(s[i])
        invariant
            p <= i <= s@.len(),
            skip_ws(s@, p as int) == skip_ws(s@, i as int),
        decreases s.len() - i,
    {
        i += 1;
    }
    i
}

fn ident_end_at(s: &Vec<char>, p: usize) -> (r: usize)
    requires
        p <= s@.len(),
    ensures
        r == ident_end(s@, p as int),
        p <= r <= s@.len(),
{
    let mut i = p;
    while i < s.len() && (is_alphanumeric(s[i]) || s[i] == '_' || s[i] == '-')
        invariant
            p <= i <= s@.len(),
            ident_end(s@, p as int) == ident_end(s@, i as int),
        decreases s.len() - i,
    {
        i += 1;
    }
    i
}

fn value_end_at(s: &Vec<char>, p: usize) -> (r: usize)
    requires
        p <= s@.len(),
    ensures
        r == value_end(s@, p as int),
        p <= r <= s@.len(),
{
    let mut i = p;
    while i < s.len() && s[i] != ',' && s[i] != ']'
        invariant
            p <= i <= s@.len(),
            value_end(s@, p as int) == value_end(s@, i as int),
        decreases s.len() - i,
    {
        i += 1;
    }
    i
}

fn char_at(s: &Vec<char>, p: usize, c: char) -> (r: bool)
    ensures
        r == at(s@, p as int, c),
{
    p < s.len() && s[p] == c
}

fn cond_at(s: &Vec<char>, p: usize) -> (r: Option<(String, String, usize)>)
    requires
        p <= s@.len(),
    ensures
        match (parse_cond(s@, p as int), r) {
            (None, None) => true,
            (Some(c), Some((k, v, q))) => k@ == c.0 && v@ == c.1 && q == c.2 && p <= c.2
                <= s@.len(),
            _ => false,
        },
{
    let lead = skip_ws_at(s, p);
    let name_end = ident_end_at(s, lead);
    let mid = skip_ws_at(s, name_end);
    if name_end == lead || mid >= s.len() || s[mid] != '=' {
        return None;
    }
    let tail = skip_ws_at(s, mid + 1);
    let value_stop = value_end_at(s, tail);
    if value_stop == tail {
        return None;
    }
    let k = trimmed(s, lead, name_end);
    let v = trimmed(s, tail, value_stop);
    let q = skip_ws_at(s, value_stop);
    Some((string_from_chars(&k), string_from_chars(&v), q))
}

fn filter_at(s: &Vec<char>, p: usize) -> (r: Option<(Vec<(String, String)>, usize)>)
    requires
        p <= s@.len(),
    ensures
        match (parse_filter(s@, p as int), r) {
            (None, None) => true,
            (Some(f), Some((cs, q))) => conds_view(cs@) == f.0 && q == f.1 && p <= f.1 <= s@.len(),
            _ => false,
        },
{
    let lead = skip_ws_at(s, p);
    if lead >= s.len() || s[lead] != '[' {
        return None;
    }
    let mid = skip_ws_at(s, lead + 1);
    let first = cond_at(s, mid);
    let (k0, v0, first_end) = match first {
        None => {
            return None;
        },
        Some(c) => c,
    };
    let mut conds: Vec<(String, String)> = Vec::new();
    conds.push((k0, v0));
    let ghost head = conds_view(conds@);
    let mut q = first_end;
    loop
        invariant
            p <= first_end <= q <= s@.len(),
            head == conds_view(conds@.subrange(0, 1)),
            conds@.len() >= 1,
            more_conds(s@, first_end as int) == (
                conds_view(conds@).subrange(1, conds@.len() as int) + more_conds(s@, q as int).0,
                more_conds(s@, q as int).1,
            ),
        ensures
            p <= first_end <= q <= s@.len(),
            head == conds_view(conds@.subrange(0, 1)),
            conds@.len() >= 1,
            more_conds(s@, first_end as int) == (
                conds_view(conds@).subrange(1, conds@.len() as int) + more_conds(s@, q as int).0,
                more_conds(s@, q as int).1,
            ),
            more_conds(s@, q as int).0 == Seq::<(Seq<char>, Seq<char>)>::empty(),
            more_conds(s@, q as int).1 == q,
        decreases s@.len() - q,
    {
        let sep = skip_ws_at(s, q);
        if sep >= s.len() || s[sep] != ',' {
            break;
        }
        let next_start = skip_ws_at(s, sep + 1);
        match cond_at(s, next_start) {
            None => {
                break;
            },
            Some(c) => {
                let (k, v, next_end) = c;
                if next_end <= q {
                    break;
                }
                let ghost before = conds_view(conds@);
                conds.push((k, v));
                proof {
                    assert(conds_view(conds@) =~= before.push((k@, v@)));
                    assert(conds_view(conds@).subrange(1, conds@.len() as int) =~= before.subrange(
                        1,
                        before.len() as int,
                    ) + seq![(k@, v@)]);
                    assert(conds_view(conds@).subrange(0, 1) =~= before.subrange(0, 1));
                    let m = more_conds(s@, next_end as int);
                    assert(before.subrange(1, before.len() as int) + (seq![(k@, v@)] + m.0)
                        =~= conds_view(conds@).subrange(1, conds@.len() as int) + m.0);
                }
                q = next_end;
            },
        }
    }
    let sep = skip_ws_at(s, q);
    if sep >= s.len() || s[sep] != ']' {
        return None;
    }
    let end = skip_ws_at(s, sep + 1);
    proof {
        assert(conds_view(conds@).subrange(1, conds@.len() as int) + more_conds(s@, q as int).0
            =~= conds_view(conds@).subrange(1, conds@.len() as int));
        assert(conds_view(conds@) =~= head + conds_view(conds@).subrange(1, conds@.len() as int));
    }
    Some((conds, end))
}

fn key_at(s: &Vec<char>, p: usize) -> (r: (Vec<char>, usize))
    requires
        p <= s@.len(),
    ensures
        r.0@ == parse_key(s@, p as int).0,
        r.1 == parse_key(s@, p as int).1,
        p <= r.1 <= s@.len(),
{
    let mut out: Vec<char> = Vec::new();
    let mut i = p;
    loop
        invariant
            p <= i <= s@.len(),
            parse_key(s@, p as int) == (out@ + parse_key(s@, i as int).0, parse_key(
                s@,
                i as int,
            ).1),
        decreases s@.len() - i,
    {
        let ghost before = out@;
        if s.len() > 1 && i < s.len() - 1 && s[i] == '~' && (s[i + 1] == '0' || s[i + 1] == '1') {
            out.push(if s[i + 1] == '0' { '~' } else { '/' });
            i += 2;
            assert(before + parse_key(s@, i - 2).0 =~= out@ + parse_key(s@, i as int).0);
        } else if i < s.len() && s[i] != '/' && s[i] != '[' && s[i] != '~' {
            out.push(s[i]);
            i += 1;
            assert(before + parse_key(s@, i - 1).0 =~= out@ + parse_key(s@, i as int).0);
        } else {
            assert(out@ + parse_key(s@, i as int).0 =~= out@);
            return (out, i);
        }
    }
}

fn segment_at(s: &Vec<char>, p: usize) -> (r: (Segment, usize))
    requires
        p <= s@.len(),
    ensures
        r.0@ == parse_segment(s@, p as int).0,
        r.1 == parse_segment(s@, p as int).1,
        p <= r.1 <= s@.len(),
{
    match filter_at(s, p) {
        Some((conds, q)) => (Segment::Filter(conds), q),
        None => {
            let (k, q) = key_at(s, p);
            (Segment::Field(string_from_chars(&k)), q)
        },
    }
}

/// The segments after the leading `/` and the position where they end.
fn segments_prefix(s: &Vec<char>) -> (r: (Spath, usize))
    requires
        s@.len() > 0,
    ensures
        r.0@ == parse_segments(s@, 1).0,
        r.1 == parse_segments(s@, 1).1,
        1 <= r.1 <= s@.len(),
{
    let mut segments: Vec<Segment> = Vec::new();
    let mut p: usize = 1;
    loop
        invariant
            1 <= p <= s@.len(),
            parse_segments(s@, 1) == (segs_view(segments@) + parse_segments(s@, p as int).0, parse_segments(s@, p as int).1),
        decreases s@.len() - p,
    {
        let ghost before = segs_view(segments@);
        let (seg, q) = segment_at(s, p);
        segments.push(seg);
        proof {
            assert(segs_view(segments@) =~= before.push(seg@));
        }
        if q < s.len() && s[q] == '/' {
            proof {
                let rest = parse_segments(s@, q + 1);
                assert(before + (seq![seg@] + rest.0) =~= segs_view(segments@) + rest.0);
            }
            p = q + 1;
        } else {
            proof {
                assert(parse_segments(s@, p as int) == (seq![seg@], q as int));
                assert(before + seq![seg@] =~= segs_view(segments@));
            }
            return (Spath { segments }, q);
        }
    }
}

/// Reads the longest prefix of `input` that is a path: the rest of the text
/// and the path read. Fails only where `input` is neither empty nor starts
/// with `/`.
pub fn parse_path(input: &str) -> (r: Result<(String, Spath), PathError>)
    ensures
        match r {
            Ok((rest, path)) => if input@.len() == 0 {
                rest@.len() == 0 && path@.len() == 0
            } else {
                input@[0] == '/' && path@ == parse_segments(input@, 1).0 && rest@ == input@.subrange(
                    parse_segments(input@, 1).1,
                    input@.len() as int,
                )
            },
            Err(PathError::InvalidSyntax { position, message }) => input@.len() > 0 && input@[0]
                != '/' && position == 0 && message@ == NOT_A_PATH_MSG@,
        },
{
    let s = chars_of(input);
    if s.len() == 0 {
        return Ok((String::new(), Spath::root()));
    }
    if s[0] != '/' {
        return Err(PathError::invalid_syntax(0, NOT_A_PATH_MSG));
    }
    let (path, q) = segments_prefix(&s);
    let rest = input.substring_char(q, s.len());
    Ok((rest.to_owned(), path))
}

impl Spath {
    /// Reads a path from its text.
    pub fn parse(text: &str) -> (r: Result<Spath, PathError>)
        ensures
            match read_path(text@) {
                Ok(segs) => r is Ok && r->Ok_0@ == segs,
                Err((q, msg)) => r is Err && r->Err_0 == (PathError::InvalidSyntax {
                    position: r->Err_0->position,
                    message: r->Err_0->message,
                }) && r->Err_0->position == vstd::utf8::encode_utf8(
                    text@.subrange(0, q),
                ).len() as usize && r->Err_0->message@ == msg,
            },
    {
        let s = chars_of(text);
        if s.len() == 0 {
            return Ok(Spath::root());
        }
        if s[0] != '/' {
            let e = PathError::invalid_syntax(0, NOT_A_PATH_MSG);
            proof {
                assert(text@.subrange(0, 0) =~= Seq::<char>::empty());
                assert(vstd::utf8::encode_utf8(Seq::<char>::empty()) =~= Seq::<u8>::empty());
            }
            return Err(e);
        }
        let (path, q) = segments_prefix(&s);
        if q == s.len() {
            return Ok(path);
        }
        let position = text.substring_char(0, q).len();
        let rest = text.substring_char(q, s.len());
        match trailing_input_error(text, rest) {
            PathError::InvalidSyntax { message, .. } => Err(PathError::InvalidSyntax { position, message }),
        }
    }
}

/// The error for text left over after a path: at the byte offset where the
/// rest starts, with a message on its first character.
pub fn trailing_input_error(input: &str, rest: &str) -> (r: PathError)
    ensures
        r == (PathError::InvalidSyntax { position: r->position, message: r->message }),
        r->position == if (vstd::utf8::encode_utf8(input@).len() as usize) >= (vstd::utf8::encode_utf8(
            rest@,
        ).len() as usize) {
            (vstd::utf8::encode_utf8(input@).len() as usize) - (vstd::utf8::encode_utf8(rest@).len() as usize)
        } else {
            0
        },
        r->message@ == if rest@.len() == 0 {
            "unexpected end of input"@
        } else {
            trailing_message(rest@[0])
        },
{
    let position = input.len().saturating_sub(rest.len());
    if rest.unicode_len() == 0 {
        return PathError::invalid_syntax(position, "unexpected end of input");
    }
    let c = rest.get_char(0);
    if c == '[' {
        return PathError::invalid_syntax(position, UNEXPECTED_SQ_BRACKET_MSG);
    }
    let mut msg: Vec<char> = Vec::new();
    push_chars(&mut msg, "unexpected character '");
    msg.push(c);
    push_chars(&mut msg, "'. Fix: remove it or check the segment syntax at this position.");
    let message = string_from_chars(&msg);
    PathError::InvalidSyntax { position, message }
}

fn rest_of(input: &str, s: &Vec<char>, q: usize) -> (r: String)
    requires
        s@ == input@,
        q <= s@.len(),
    ensures
        r@ == input@.subrange(q as int, input@.len() as int),
{
    input.substring_char(q, s.len()).to_owned()
}

/// Reads a filter segment `[k=v, ...]` at the start of `input`: the rest of
/// the text and the segment.
pub fn parse_filter_segment(input: &str) -> (r: Option<(String, Segment)>)
    ensures
        match parse_filter(input@, 0) {
            None => r is None,
            Some(f) => match r {
                Some((rest, seg)) => seg@ == Seg::Filter(f.0) && rest@ == input@.subrange(
                    f.1,
                    input@.len() as int,
                ),
                None => false,
            },
        },
{
    let s = chars_of(input);
    match filter_at(&s, 0) {
        Some((conds, q)) => Some((rest_of(input, &s, q), Segment::Filter(conds))),
        None => None,
    }
}

/// Reads a field name at the start of `input`: the rest of the text and the
/// segment; it always succeeds, reading no character where the text starts
/// with `/` or `[`.
pub fn parse_key_segment(input: &str) -> (r: Option<(String, Segment)>)
    ensures
        match r {
            Some((rest, seg)) => seg@ == Seg::Field(parse_key(input@, 0).0) && rest@ == input@.subrange(
                parse_key(input@, 0).1,
                input@.len() as int,
            ),
            None => false,
        },
{
    let s = chars_of(input);
    let (k, q) = key_at(&s, 0);
    Some((rest_of(input, &s, q), Segment::Field(string_from_chars(&k))))
}

/// Reads one condition `name = value` at the start of `input`: the rest of
/// the text and the condition.
pub fn parse_condition(input: &str) -> (r: Option<(String, (String, String))>)
    ensures
        match parse_cond(input@, 0) {
            None => r is None,
            Some(c) => match r {
                Some((rest, (k, v))) => k@ == c.0 && v@ == c.1 && rest@ == input@.subrange(
                    c.2,
                    input@.len() as int,
                ),
                None => false,
            },
        },
{
    let s = chars_of(input);
    match cond_at(&s, 0) {
        Some((k, v, q)) => Some((rest_of(input, &s, q), (k, v))),
        None => None,
    }
}

/// Reads a condition name (letters, digits, `_`, `-`) at the start of
/// `input`: the rest of the text and the name.
pub fn parse_ident(input: &str) -> (r: Option<(String, String)>)
    ensures
        match r {
            None => ident_end(input@, 0) == 0,
            Some((rest, name)) => ident_end(input@, 0) > 0 && name@ == input@.subrange(
                0,
                ident_end(input@, 0),
            ) && rest@ == input@.subrange(ident_end(input@, 0), input@.len() as int),
        },
{
    let s = chars_of(input);
    let e = ident_end_at(&s, 0);
    if e == 0 {
        return None;
    }
    Some((rest_of(input, &s, e), input.substring_char(0, e).to_owned()))
}

/// Reads a condition value (anything up to `,` or `]`) at the start of
/// `input`: the rest of the text and the value, untrimmed.
pub fn parse_value(input: &str) -> (r: Option<(String, String)>)
    ensures
        match r {
            None => value_end(input@, 0) == 0,
            Some((rest, value)) => value_end(input@, 0) > 0 && value@ == input@.subrange(
                0,
                value_end(input@, 0),
            ) && rest@ == input@.subrange(value_end(input@, 0), input@.len() as int),
        },
{
    let s = chars_of(input);
    let e = value_end_at(&s, 0);
    if e == 0 {
        return None;
    }
    Some((rest_of(input, &s, e), input.substring_char(0, e).to_owned()))
}

} // verus!

//! The PayloadReconstructor: multipart form bodies as this gateway frames
//! them. A body is a sequence of fields, each either a metadata text part
//! or the artifact part carrying a filename and an optional mime type.
//! Encoding and parsing are exact inverses on well-formed fields.
use vstd::prelude::*;
use crate::bytes_util::{
    delimiter_free, find_at, first_match_from, has_prefix_at, lemma_first_match_from,
    lemma_first_match_junction, lemma_first_match_skip, match_at, push_all, starts_with,
    starts_with_bytes, sub_vec,
};

verus! {

/// One multipart form field, as carried on the wire: a declared name, an
/// optional filename, an optional mime type, and the payload bytes.
pub struct MultipartField {
    pub name: Vec<u8>,
    pub filename: Option<Vec<u8>>,
    pub mime: Option<Vec<u8>>,
    pub data: Vec<u8>,
}

/// The mathematical model of a field.
pub struct FieldModel {
    pub name: Seq<u8>,
    pub filename: Option<Seq<u8>>,
    pub mime: Option<Seq<u8>>,
    pub data: Seq<u8>,
}

impl View for MultipartField {
    type V = FieldModel;

    open spec fn view(&self) -> FieldModel {
        FieldModel {
            name: self.name@,
            filename: match self.filename {
                Some(f) => Some(f@),
                None => None,
            },
            mime: match self.mime {
                Some(m) => Some(m@),
                None => None,
            },
            data: self.data@,
        }
    }
}

/// The models of a vector of fields, in order.
pub open spec fn fields_view(v: Seq<MultipartField>) -> Seq<FieldModel> {
    v.map_values(|f: MultipartField| f@)
}

/// Carriage return, line feed.
pub open spec fn crlf_s() -> Seq<u8> {
    seq![13u8, 10u8]
}

/// Two dashes.
pub open spec fn dashes_s() -> Seq<u8> {
    seq![45u8, 45u8]
}

/// One double quote.
pub open spec fn quote_s() -> Seq<u8> {
    seq![34u8]
}

/// The bytes of `Content-Disposition: form-data; name="`.
pub open spec fn disp_prefix_s() -> Seq<u8> {
    seq![67u8, 111u8, 110u8, 116u8, 101u8, 110u8, 116u8, 45u8, 68u8, 105u8, 115u8, 112u8, 111u8, 115u8, 105u8, 116u8, 105u8, 111u8, 110u8, 58u8, 32u8, 102u8, 111u8, 114u8, 109u8, 45u8, 100u8, 97u8, 116u8, 97u8, 59u8, 32u8, 110u8, 97u8, 109u8, 101u8, 61u8, 34u8]
}

/// The bytes of `; filename="`.
pub open spec fn fname_prefix_s() -> Seq<u8> {
    seq![59u8, 32u8, 102u8, 105u8, 108u8, 101u8, 110u8, 97u8, 109u8, 101u8, 61u8, 34u8]
}

/// The bytes of `Content-Type: `.
pub open spec fn ctype_prefix_s() -> Seq<u8> {
    seq![67u8, 111u8, 110u8, 116u8, 101u8, 110u8, 116u8, 45u8, 84u8, 121u8, 112u8, 101u8, 58u8, 32u8]
}

/// The part delimiter: a line break followed by two dashes and the
/// boundary.
pub open spec fn delim_s(b: Seq<u8>) -> Seq<u8> {
    crlf_s() + dashes_s() + b
}

/// The header block of one field: the disposition line naming the field
/// and perhaps a filename, an optional content-type line, and the blank
/// line that closes the headers.
pub open spec fn header_block(f: FieldModel) -> Seq<u8> {
    disp_prefix_s() + f.name + quote_s() + (match f.filename {
        Some(fname) => fname_prefix_s() + fname + quote_s(),
        None => Seq::<u8>::empty(),
    }) + crlf_s() + (match f.mime {
        Some(m) => ctype_prefix_s() + m + crlf_s(),
        None => Seq::<u8>::empty(),
    }) + crlf_s()
}

/// One encoded field: boundary line, header block, payload, line break.
pub open spec fn encode_field(b: Seq<u8>, f: FieldModel) -> Seq<u8> {
    dashes_s() + b + crlf_s() + header_block(f) + f.data + crlf_s()
}

/// The encoded fields, in order.
pub open spec fn encode_fields(b: Seq<u8>, fs: Seq<FieldModel>) -> Seq<u8>
    decreases fs.len(),
{
    if fs.len() == 0 {
        Seq::<u8>::empty()
    } else {
        encode_field(b, fs[0]) + encode_fields(b, fs.drop_first())
    }
}

/// A whole multipart body: the encoded fields followed by the closing
/// boundary line.
pub open spec fn encode_body(b: Seq<u8>, fs: Seq<FieldModel>) -> Seq<u8> {
    encode_fields(b, fs) + dashes_s() + b + dashes_s() + crlf_s()
}

/// Encoding distributes over concatenation of field lists.
pub proof fn lemma_encode_fields_concat(b: Seq<u8>, fs1: Seq<FieldModel>, fs2: Seq<FieldModel>)
    ensures
        encode_fields(b, fs1 + fs2) == encode_fields(b, fs1) + encode_fields(b, fs2),
    decreases fs1.len(),
{
    if fs1.len() == 0 {
        assert(fs1 + fs2 =~= fs2);
        assert(encode_fields(b, fs1) + encode_fields(b, fs2) =~= encode_fields(b, fs2));
    } else {
        assert((fs1 + fs2).drop_first() =~= fs1.drop_first() + fs2);
        lemma_encode_fields_concat(b, fs1.drop_first(), fs2);
        assert(encode_fields(b, fs1 + fs2) =~= encode_fields(b, fs1) + encode_fields(b, fs2));
    }
}

/// The disposition-line prefix, as a vector.
fn disp_prefix_vec() -> (r: Vec<u8>)
    ensures
        r@ == disp_prefix_s(),
{
    let mut v: Vec<u8> = Vec::new();
    v.push(67u8);
    v.push(111u8);
    v.push(110u8);
    v.push(116u8);
    v.push(101u8);
    v.push(110u8);
    v.push(116u8);
    v.push(45u8);
    v.push(68u8);
    v.push(105u8);
    v.push(115u8);
    v.push(112u8);
    v.push(111u8);
    v.push(115u8);
    v.push(105u8);
    v.push(116u8);
    v.push(105u8);
    v.push(111u8);
    v.push(110u8);
    v.push(58u8);
    v.push(32u8);
    v.push(102u8);
    v.push(111u8);
    v.push(114u8);
    v.push(109u8);
    v.push(45u8);
    v.push(100u8);
    v.push(97u8);
    v.push(116u8);
    v.push(97u8);
    v.push(59u8);
    v.push(32u8);
    v.push(110u8);
    v.push(97u8);
    v.push(109u8);
    v.push(101u8);
    v.push(61u8);
    v.push(34u8);
    proof {
        assert(v@ =~= disp_prefix_s());
    }
    v
}

/// The filename-attribute prefix, as a vector.
fn fname_prefix_vec() -> (r: Vec<u8>)
    ensures
        r@ == fname_prefix_s(),
{
    let mut v: Vec<u8> = Vec::new();
    v.push(59u8);
    v.push(32u8);
    v.push(102u8);
    v.push(105u8);
    v.push(108u8);
    v.push(101u8);
    v.push(110u8);
    v.push(97u8);
    v.push(109u8);
    v.push(101u8);
    v.push(61u8);
    v.push(34u8);
    proof {
        assert(v@ =~= fname_prefix_s());
    }
    v
}

/// The content-type-line prefix, as a vector.
fn ctype_prefix_vec() -> (r: Vec<u8>)
    ensures
        r@ == ctype_prefix_s(),
{
    let mut v: Vec<u8> = Vec::new();
    v.push(67u8);
    v.push(111u8);
    v.push(110u8);
    v.push(116u8);
    v.push(101u8);
    v.push(110u8);
    v.push(116u8);
    v.push(45u8);
    v.push(84u8);
    v.push(121u8);
    v.push(112u8);
    v.push(101u8);
    v.push(58u8);
    v.push(32u8);
    proof {
        assert(v@ =~= ctype_prefix_s());
    }
    v
}

/// Appends one encoded field to `out`.
#[verifier::rlimit(100)]
fn encode_field_into(out: &mut Vec<u8>, boundary: &[u8], f: &MultipartField)
    ensures
        final(out)@ == old(out)@ + encode_field(boundary@, f@),
{
    out.push(45u8);
    out.push(45u8);
    push_all(out, boundary);
    out.push(13u8);
    out.push(10u8);
    let disp = disp_prefix_vec();
    push_all(out, disp.as_slice());
    push_all(out, f.name.as_slice());
    out.push(34u8);
    match &f.filename {
        Some(fname) => {
            let fp = fname_prefix_vec();
            push_all(out, fp.as_slice());
            push_all(out, fname.as_slice());
            out.push(34u8);
        },
        None => {},
    }
    out.push(13u8);
    out.push(10u8);
    match &f.mime {
        Some(m) => {
            let cp = ctype_prefix_vec();
            push_all(out, cp.as_slice());
            push_all(out, m.as_slice());
            out.push(13u8);
            out.push(10u8);
        },
        None => {},
    }
    out.push(13u8);
    out.push(10u8);
    push_all(out, f.data.as_slice());
    out.push(13u8);
    out.push(10u8);
    proof {
        let fv = f@;
        let fname_part: Seq<u8> = match fv.filename {
            Some(fname) => fname_prefix_s() + fname + quote_s(),
            None => Seq::<u8>::empty(),
        };
        let mime_part: Seq<u8> = match fv.mime {
            Some(m) => ctype_prefix_s() + m + crlf_s(),
            None => Seq::<u8>::empty(),
        };
        assert(header_block(fv) == disp_prefix_s() + fv.name + quote_s() + fname_part + crlf_s()
            + mime_part + crlf_s());
        assert(out@ =~= old(out)@ + (dashes_s() + boundary@ + crlf_s() + header_block(fv) + fv.data
            + crlf_s()));
    }
}

/// Builds the multipart body that carries `fields` in order, delimited by
/// `boundary`.
pub fn encode_multipart(boundary: &[u8], fields: &Vec<MultipartField>) -> (r: Vec<u8>)
    ensures
        r@ == encode_body(boundary@, fields_view(fields@)),
{
    let mut out: Vec<u8> = Vec::new();
    let mut i: usize = 0;
    while i < fields.len()
        invariant
            i <= fields@.len(),
            out@ == encode_fields(boundary@, fields_view(fields@.take(i as int))),
        decreases fields@.len() - i,
    {
        let ghost prev = out@;
        encode_field_into(&mut out, boundary, &fields[i]);
        proof {
            let fv = fields_view(fields@.take(i as int));
            let fv1 = fields_view(fields@.take(i + 1));
            let single = seq![fields@[i as int]@];
            assert(fv1 =~= fv + single);
            lemma_encode_fields_concat(boundary@, fv, single);
            assert(single.drop_first() =~= Seq::<FieldModel>::empty());
            assert(encode_fields(boundary@, single.drop_first()) == Seq::<u8>::empty());
            assert(encode_fields(boundary@, single) == encode_field(boundary@, single[0])
                + encode_fields(boundary@, single.drop_first()));
            assert(encode_fields(boundary@, single) =~= encode_field(
                boundary@,
                fields@[i as int]@,
            ));
            assert(out@ =~= prev + encode_field(boundary@, fields@[i as int]@));
            assert(out@ =~= encode_fields(boundary@, fv1));
        }
        i = i + 1;
    }
    assert(fields@.take(fields@.len() as int) =~= fields@);
    out.push(45u8);
    out.push(45u8);
    push_all(&mut out, boundary);
    out.push(45u8);
    out.push(45u8);
    out.push(13u8);
    out.push(10u8);
    assert(out@ =~= encode_body(boundary@, fields_view(fields@)));
    out
}


/// A quoted token: everything up to the first double quote, plus what
/// follows the quote.
pub open spec fn parse_quoted(r: Seq<u8>) -> Option<(Seq<u8>, Seq<u8>)> {
    match first_match_from(r, quote_s(), 0) {
        Some(q) => if 0 <= q && q + 1 <= r.len() {
            Some((r.take(q), r.skip(q + 1)))
        } else {
            None
        },
        None => None,
    }
}

/// The disposition line: the field name and the optional filename, plus
/// what follows the line.
pub open spec fn parse_disposition(r: Seq<u8>) -> Option<((Seq<u8>, Option<Seq<u8>>), Seq<u8>)> {
    if starts_with(r, disp_prefix_s()) {
        match parse_quoted(r.skip(38)) {
            Some((name, r2)) => if starts_with(r2, crlf_s()) {
                Some(((name, None), r2.skip(2)))
            } else if starts_with(r2, fname_prefix_s()) {
                match parse_quoted(r2.skip(12)) {
                    Some((fname, r3)) => if starts_with(r3, crlf_s()) {
                        Some(((name, Some(fname)), r3.skip(2)))
                    } else {
                        None
                    },
                    None => None,
                }
            } else {
                None
            },
            None => None,
        }
    } else {
        None
    }
}

/// The optional content-type line and the blank line that closes the
/// headers, plus what follows them.
pub open spec fn parse_ctype(r: Seq<u8>) -> Option<(Option<Seq<u8>>, Seq<u8>)> {
    if starts_with(r, crlf_s()) {
        Some((None, r.skip(2)))
    } else if starts_with(r, ctype_prefix_s()) {
        let r2 = r.skip(14);
        match first_match_from(r2, crlf_s(), 0) {
            Some(m) => if 0 <= m && m + 2 <= r2.len() {
                let r3 = r2.skip(m + 2);
                if starts_with(r3, crlf_s()) {
                    Some((Some(r2.take(m)), r3.skip(2)))
                } else {
                    None
                }
            } else {
                None
            },
            None => None,
        }
    } else {
        None
    }
}

/// The payload: everything up to the first part delimiter, plus what
/// follows the delimiter.
pub open spec fn parse_data(r: Seq<u8>, b: Seq<u8>) -> Option<(Seq<u8>, Seq<u8>)> {
    let d = delim_s(b);
    match first_match_from(r, d, 0) {
        Some(m) => if 0 <= m && m + d.len() <= r.len() {
            Some((r.take(m), r.skip(m + d.len())))
        } else {
            None
        },
        None => None,
    }
}

/// The fields encoded in `rest`, which is what follows a boundary marker:
/// either the closing `--` line, or a line break and one part, then more.
pub open spec fn parse_parts(rest: Seq<u8>, b: Seq<u8>) -> Option<Seq<FieldModel>>
    decreases rest.len(),
{
    if rest.len() == 4 && starts_with(rest, dashes_s() + crlf_s()) {
        Some(Seq::<FieldModel>::empty())
    } else if starts_with(rest, crlf_s()) {
        match parse_disposition(rest.skip(2)) {
            Some(((name, filename), r2)) => match parse_ctype(r2) {
                Some((mime, r3)) => match parse_data(r3, b) {
                    Some((data, r4)) => if r4.len() < rest.len() {
                        match parse_parts(r4, b) {
                            Some(fields) => Some(
                                seq![FieldModel { name, filename, mime, data }] + fields,
                            ),
                            None => None,
                        }
                    } else {
                        None
                    },
                    None => None,
                },
                None => None,
            },
            None => None,
        }
    } else {
        None
    }
}

/// The fields encoded in a whole multipart body delimited by `b`.
pub open spec fn parse_body(body: Seq<u8>, b: Seq<u8>) -> Option<Seq<FieldModel>> {
    if starts_with(body, dashes_s() + b) {
        parse_parts(body.skip(2 + b.len() as int), b)
    } else {
        None
    }
}

/// Model of an optional byte vector.
pub open spec fn opt_view(o: Option<Vec<u8>>) -> Option<Seq<u8>> {
    match o {
        Some(v) => Some(v@),
        None => None,
    }
}

/// One double quote, as a vector.
fn quote_vec() -> (r: Vec<u8>)
    ensures
        r@ == quote_s(),
{
    let mut v: Vec<u8> = Vec::new();
    v.push(34u8);
    proof {
        assert(v@ =~= quote_s());
    }
    v
}

/// A line break, as a vector.
fn crlf_vec() -> (r: Vec<u8>)
    ensures
        r@ == crlf_s(),
{
    let mut v: Vec<u8> = Vec::new();
    v.push(13u8);
    v.push(10u8);
    proof {
        assert(v@ =~= crlf_s());
    }
    v
}

/// Reads a quoted token at `pos`: the bytes before the first double
/// quote, and the position just past that quote.
fn parse_quoted_exec(body: &[u8], pos: usize) -> (r: Option<(Vec<u8>, usize)>)
    requires
        pos <= body@.len(),
    ensures
        match r {
            Some(t) => pos < t.1 <= body@.len() && parse_quoted(body@.skip(pos as int)) == Some(
                (t.0@, body@.skip(t.1 as int)),
            ),
            None => parse_quoted(body@.skip(pos as int)) is None,
        },
{
    let n = body.len();
    proof {
        assert(body@.len() == n && n <= usize::MAX);
    }
    let quote = quote_vec();
    match find_at(body, quote.as_slice(), pos) {
        Some(q) => {
            let tok = sub_vec(body, pos, q);
            proof {
                let r0 = body@.skip(pos as int);
                assert(tok@ =~= r0.take(q - pos));
                assert(body@.skip(q + 1) =~= r0.skip(q - pos + 1));
            }
            Some((tok, q + 1))
        },
        None => None,
    }
}

/// Reads the disposition line at `pos`: the field name, the optional
/// filename, and the position just past the line.
fn parse_disposition_exec(body: &[u8], pos: usize) -> (r: Option<(Vec<u8>, Option<Vec<u8>>, usize)>)
    requires
        pos <= body@.len(),
    ensures
        match r {
            Some(t) => pos < t.2 <= body@.len() && parse_disposition(body@.skip(pos as int))
                == Some(((t.0@, opt_view(t.1)), body@.skip(t.2 as int))),
            None => parse_disposition(body@.skip(pos as int)) is None,
        },
{
    let n = body.len();
    proof {
        assert(body@.len() == n && n <= usize::MAX);
    }
    let ghost r0 = body@.skip(pos as int);
    let disp = disp_prefix_vec();
    if !has_prefix_at(body, disp.as_slice(), pos) {
        return None;
    }
    let p1 = pos + 38;
    proof {
        assert(body@.skip(p1 as int) =~= r0.skip(38));
    }
    let (name, p2) = match parse_quoted_exec(body, p1) {
        Some(t) => t,
        None => {
            return None;
        },
    };
    let crlf = crlf_vec();
    if has_prefix_at(body, crlf.as_slice(), p2) {
        proof {
            assert(body@.skip(p2 + 2) =~= body@.skip(p2 as int).skip(2));
        }
        return Some((name, None, p2 + 2));
    }
    let fp = fname_prefix_vec();
    if !has_prefix_at(body, fp.as_slice(), p2) {
        return None;
    }
    let p3 = p2 + 12;
    proof {
        assert(body@.skip(p3 as int) =~= body@.skip(p2 as int).skip(12));
    }
    let (fname, p4) = match parse_quoted_exec(body, p3) {
        Some(t) => t,
        None => {
            return None;
        },
    };
    if !has_prefix_at(body, crlf.as_slice(), p4) {
        return None;
    }
    proof {
        assert(body@.skip(p4 + 2) =~= body@.skip(p4 as int).skip(2));
    }
    Some((name, Some(fname), p4 + 2))
}

/// Reads the optional content-type line and the blank line at `pos`: the
/// optional mime bytes and the position where the payload starts.
fn parse_ctype_exec(body: &[u8], pos: usize) -> (r: Option<(Option<Vec<u8>>, usize)>)
    requires
        pos <= body@.len(),
    ensures
        match r {
            Some(t) => pos < t.1 <= body@.len() && parse_ctype(body@.skip(pos as int)) == Some(
                (opt_view(t.0), body@.skip(t.1 as int)),
            ),
            None => parse_ctype(body@.skip(pos as int)) is None,
        },
{
    let n = body.len();
    proof {
        assert(body@.len() == n && n <= usize::MAX);
    }
    let ghost r0 = body@.skip(pos as int);
    let crlf = crlf_vec();
    if has_prefix_at(body, crlf.as_slice(), pos) {
        proof {
            assert(body@.skip(pos + 2) =~= r0.skip(2));
        }
        return Some((None, pos + 2));
    }
    let cp = ctype_prefix_vec();
    if !has_prefix_at(body, cp.as_slice(), pos) {
        return None;
    }
    let p1 = pos + 14;
    let ghost r1 = body@.skip(p1 as int);
    proof {
        assert(r1 =~= r0.skip(14));
    }
    let m1 = match find_at(body, crlf.as_slice(), p1) {
        Some(m) => m,
        None => {
            return None;
        },
    };
    let mv = sub_vec(body, p1, m1);
    let p2 = m1 + 2;
    proof {
        assert(mv@ =~= r1.take(m1 - p1));
        assert(body@.skip(p2 as int) =~= r1.skip(m1 - p1 + 2));
    }
    if !has_prefix_at(body, crlf.as_slice(), p2) {
        return None;
    }
    proof {
        assert(body@.skip(p2 + 2) =~= body@.skip(p2 as int).skip(2));
    }
    Some((Some(mv), p2 + 2))
}

/// Reads the payload at `pos`: the bytes before the first part delimiter
/// and the position just past the delimiter.
fn parse_data_exec(body: &[u8], pos: usize, boundary: &[u8]) -> (r: Option<(Vec<u8>, usize)>)
    requires
        pos <= body@.len(),
    ensures
        match r {
            Some(t) => pos < t.1 <= body@.len() && parse_data(body@.skip(pos as int), boundary@)
                == Some((t.0@, body@.skip(t.1 as int))),
            None => parse_data(body@.skip(pos as int), boundary@) is None,
        },
{
    let n = body.len();
    proof {
        assert(body@.len() == n && n <= usize::MAX);
    }
    let ghost r0 = body@.skip(pos as int);
    let mut delim: Vec<u8> = Vec::new();
    delim.push(13u8);
    delim.push(10u8);
    delim.push(45u8);
    delim.push(45u8);
    push_all(&mut delim, boundary);
    proof {
        assert(delim@ =~= delim_s(boundary@));
    }
    let d1 = match find_at(body, delim.as_slice(), pos) {
        Some(d) => d,
        None => {
            return None;
        },
    };
    let data = sub_vec(body, pos, d1);
    let p1 = d1 + delim.len();
    proof {
        assert(data@ =~= r0.take(d1 - pos));
        assert(body@.skip(p1 as int) =~= r0.skip(d1 - pos + delim_s(boundary@).len()));
    }
    Some((data, p1))
}

/// Parses the parts that start at `pos`, which is just past a boundary
/// marker, appending each field found to `acc`.
fn parse_parts_exec(
    body: &[u8],
    pos: usize,
    boundary: &[u8],
    acc: &mut Vec<MultipartField>,
) -> (ok: bool)
    requires
        pos <= body@.len(),
    ensures
        match parse_parts(body@.skip(pos as int), boundary@) {
            Some(fields) => ok && fields_view(final(acc)@) == fields_view(old(acc)@) + fields,
            None => !ok,
        },
    decreases body@.len() - pos,
{
    let ghost rest = body@.skip(pos as int);
    let mut term: Vec<u8> = Vec::new();
    term.push(45u8);
    term.push(45u8);
    term.push(13u8);
    term.push(10u8);
    proof {
        assert(term@ =~= dashes_s() + crlf_s());
    }
    if body.len() - pos == 4 && has_prefix_at(body, term.as_slice(), pos) {
        proof {
            assert(rest.len() == 4);
            assert(parse_parts(rest, boundary@) == Some(Seq::<FieldModel>::empty()));
            assert(fields_view(acc@) =~= fields_view(acc@) + Seq::<FieldModel>::empty());
        }
        return true;
    }
    proof {
        assert(!(rest.len() == 4 && starts_with(rest, dashes_s() + crlf_s())));
    }
    let crlf = crlf_vec();
    if !has_prefix_at(body, crlf.as_slice(), pos) {
        return false;
    }
    let p1 = pos + 2;
    proof {
        assert(body@.skip(p1 as int) =~= rest.skip(2));
    }
    let (name, filename, p2) = match parse_disposition_exec(body, p1) {
        Some(t) => t,
        None => {
            return false;
        },
    };
    let (mime, p3) = match parse_ctype_exec(body, p2) {
        Some(t) => t,
        None => {
            return false;
        },
    };
    let (data, p4) = match parse_data_exec(body, p3, boundary) {
        Some(t) => t,
        None => {
            return false;
        },
    };
    proof {
        assert(body@.skip(p4 as int).len() < rest.len());
    }
    let field = MultipartField { name, filename, mime, data };
    proof {
        assert(field@ == FieldModel {
            name: field.name@,
            filename: opt_view(field.filename),
            mime: opt_view(field.mime),
            data: field.data@,
        });
    }
    acc.push(field);
    let ghost mid = acc@;
    let ok = parse_parts_exec(body, p4, boundary, acc);
    proof {
        if ok {
            let fields = parse_parts(body@.skip(p4 as int), boundary@).unwrap();
            assert(fields_view(mid) =~= fields_view(old(acc)@) + seq![mid.last()@]);
            assert(fields_view(acc@) =~= fields_view(old(acc)@) + (seq![mid.last()@] + fields));
        }
    }
    ok
}

/// Parses a whole multipart body delimited by `boundary` into its fields,
/// or nothing if the framing is malformed.
pub fn parse_multipart(body: &[u8], boundary: &[u8]) -> (r: Option<Vec<MultipartField>>)
    ensures
        match r {
            Some(v) => parse_body(body@, boundary@) == Some(fields_view(v@)),
            None => parse_body(body@, boundary@) is None,
        },
{
    let mut head: Vec<u8> = Vec::new();
    head.push(45u8);
    head.push(45u8);
    push_all(&mut head, boundary);
    proof {
        assert(head@ =~= dashes_s() + boundary@);
    }
    if !starts_with_bytes(body, head.as_slice()) {
        return None;
    }
    let mut acc: Vec<MultipartField> = Vec::new();
    let ok = parse_parts_exec(body, head.len(), boundary, &mut acc);
    proof {
        assert(body@.skip(head@.len() as int) == body@.skip(2 + boundary@.len() as int));
    }
    if ok {
        proof {
            assert(fields_view(acc@) =~= fields_view(Seq::<MultipartField>::empty()) + parse_parts(
                body@.skip(2 + boundary@.len() as int),
                boundary@,
            ).unwrap());
        }
        Some(acc)
    } else {
        None
    }
}


/// No double quote anywhere: such a token survives quoting.
pub open spec fn quote_free(a: Seq<u8>) -> bool {
    forall|k: int| 0 <= k < a.len() ==> a[k] != 34u8
}

/// No line break anywhere: such a mime value survives its header line.
pub open spec fn crlf_free(m: Seq<u8>) -> bool {
    forall|k: int| 0 <= k && k + 2 <= m.len() ==> !(#[trigger] m[k] == 13u8 && m[k + 1] == 10u8)
}

/// A field that the encoding delimited by `b` carries faithfully: no
/// quote in the name or filename, no line break in the mime value, and no
/// part delimiter starting inside the payload.
pub open spec fn wf_field(f: FieldModel, b: Seq<u8>) -> bool {
    &&& quote_free(f.name)
    &&& (match f.filename {
        Some(fname) => quote_free(fname),
        None => true,
    })
    &&& (match f.mime {
        Some(m) => crlf_free(m),
        None => true,
    })
    &&& delimiter_free(f.data, delim_s(b))
}

/// Every field of the list is carried faithfully.
pub open spec fn wf_fields(fs: Seq<FieldModel>, b: Seq<u8>) -> bool {
    forall|i: int| 0 <= i < fs.len() ==> wf_field(#[trigger] fs[i], b)
}

/// A quote-free token followed by a quote parses back to the token.
proof fn lemma_parse_quoted_token(a: Seq<u8>, c: Seq<u8>)
    requires
        quote_free(a),
    ensures
        parse_quoted(a + quote_s() + c) == Some((a, c)),
{
    assert forall|k: int| 0 <= k < a.len() implies !match_at(a + quote_s(), quote_s(), k) by {
        if match_at(a + quote_s(), quote_s(), k) {
            assert((a + quote_s()).subrange(k, k + 1)[0] == a[k]);
            assert(a[k] == 34u8);
        }
    }
    lemma_first_match_junction(a, quote_s(), c);
    let r = a + quote_s() + c;
    assert(r.take(a.len() as int) =~= a);
    assert(r.skip(a.len() + 1 as int) =~= c);
}

/// A line-break-free value followed by a line break parses back to the
/// value: the first line break of the whole is the appended one.
proof fn lemma_first_crlf(m: Seq<u8>, c: Seq<u8>)
    requires
        crlf_free(m),
    ensures
        first_match_from(m + crlf_s() + c, crlf_s(), 0) == Some(m.len() as int),
{
    assert forall|k: int| 0 <= k < m.len() implies !match_at(m + crlf_s(), crlf_s(), k) by {
        if match_at(m + crlf_s(), crlf_s(), k) {
            let t = m + crlf_s();
            assert(t.subrange(k, k + 2)[0] == t[k]);
            assert(t.subrange(k, k + 2)[1] == t[k + 1]);
            assert(t[k] == 13u8 && t[k + 1] == 10u8);
            if k + 2 <= m.len() {
                assert(m[k] == 13u8 && m[k + 1] == 10u8);
            } else {
                assert(k == m.len() - 1);
                assert(t[k + 1] == crlf_s()[0]);
            }
        }
    }
    lemma_first_match_junction(m, crlf_s(), c);
}

/// The disposition line that the encoder writes for `name` and `filename`
/// parses back to exactly those, leaving `tail`.
#[verifier::rlimit(100)]
#[verifier::spinoff_prover]
proof fn lemma_parse_disposition_encode(name: Seq<u8>, filename: Option<Seq<u8>>, tail: Seq<u8>)
    requires
        quote_free(name),
        match filename {
            Some(fname) => quote_free(fname),
            None => true,
        },
    ensures
        parse_disposition(
            disp_prefix_s() + name + quote_s() + (match filename {
                Some(fname) => fname_prefix_s() + fname + quote_s(),
                None => Seq::<u8>::empty(),
            }) + crlf_s() + tail,
        ) == Some(((name, filename), tail)),
{
    let fpart: Seq<u8> = match filename {
        Some(fname) => fname_prefix_s() + fname + quote_s(),
        None => Seq::<u8>::empty(),
    };
    let r = disp_prefix_s() + name + quote_s() + fpart + crlf_s() + tail;
    assert(r.subrange(0, 38) =~= disp_prefix_s());
    assert(starts_with(r, disp_prefix_s()));
    let c = fpart + crlf_s() + tail;
    assert(r.skip(38) =~= name + quote_s() + c);
    lemma_parse_quoted_token(name, c);
    assert(parse_quoted(r.skip(38)) == Some((name, c)));
    match filename {
        None => {
            assert(c =~= crlf_s() + tail);
            assert(c.subrange(0, 2) =~= crlf_s());
            assert(starts_with(c, crlf_s()));
            assert(c.skip(2) =~= tail);
        },
        Some(fname) => {
            assert(c[0] == fname_prefix_s()[0]);
            if starts_with(c, crlf_s()) {
                assert(c.subrange(0, 2)[0] == c[0]);
                assert(false);
            }
            assert(c.subrange(0, 12) =~= fname_prefix_s());
            assert(starts_with(c, fname_prefix_s()));
            let c2 = crlf_s() + tail;
            assert(c.skip(12) =~= fname + quote_s() + c2);
            lemma_parse_quoted_token(fname, c2);
            assert(parse_quoted(c.skip(12)) == Some((fname, c2)));
            assert(c2.subrange(0, 2) =~= crlf_s());
            assert(starts_with(c2, crlf_s()));
            assert(c2.skip(2) =~= tail);
        },
    }
}

/// The content-type section that the encoder writes for `mime` parses
/// back to exactly it, leaving `tail`.
#[verifier::rlimit(100)]
#[verifier::spinoff_prover]
proof fn lemma_parse_ctype_encode(mime: Option<Seq<u8>>, tail: Seq<u8>)
    requires
        match mime {
            Some(m) => crlf_free(m),
            None => true,
        },
    ensures
        parse_ctype(
            (match mime {
                Some(m) => ctype_prefix_s() + m + crlf_s(),
                None => Seq::<u8>::empty(),
            }) + crlf_s() + tail,
        ) == Some((mime, tail)),
{
    let mpart: Seq<u8> = match mime {
        Some(m) => ctype_prefix_s() + m + crlf_s(),
        None => Seq::<u8>::empty(),
    };
    let r = mpart + crlf_s() + tail;
    match mime {
        None => {
            assert(r.subrange(0, 2) =~= crlf_s());
            assert(starts_with(r, crlf_s()));
            assert(r.skip(2) =~= tail);
        },
        Some(m) => {
            assert(r[0] == ctype_prefix_s()[0]);
            if starts_with(r, crlf_s()) {
                assert(r.subrange(0, 2)[0] == r[0]);
                assert(false);
            }
            assert(r.subrange(0, 14) =~= ctype_prefix_s());
            assert(starts_with(r, ctype_prefix_s()));
            let c = crlf_s() + tail;
            assert(r.skip(14) =~= m + crlf_s() + c);
            lemma_first_crlf(m, c);
            let r2 = r.skip(14);
            assert(first_match_from(r2, crlf_s(), 0) == Some(m.len() as int));
            assert(r2.take(m.len() as int) =~= m);
            assert(r2.skip(m.len() + 2 as int) =~= c);
            assert(c.subrange(0, 2) =~= crlf_s());
            assert(starts_with(c, crlf_s()));
            assert(c.skip(2) =~= tail);
        },
    }
}

/// The payload the encoder writes, followed by the part delimiter, parses
/// back to exactly it, leaving `cont`.
proof fn lemma_parse_data_encode(data: Seq<u8>, b: Seq<u8>, cont: Seq<u8>)
    requires
        delimiter_free(data, delim_s(b)),
    ensures
        parse_data(data + delim_s(b) + cont, b) == Some((data, cont)),
{
    lemma_first_match_junction(data, delim_s(b), cont);
    let r = data + delim_s(b) + cont;
    assert(r.take(data.len() as int) =~= data);
    assert(r.skip(data.len() + delim_s(b).len() as int) =~= cont);
}

/// What follows the opening boundary marker of an encoded body.
pub open spec fn tail_encoding(b: Seq<u8>, fs: Seq<FieldModel>) -> Seq<u8>
    decreases fs.len(),
{
    if fs.len() == 0 {
        dashes_s() + crlf_s()
    } else {
        crlf_s() + header_block(fs[0]) + fs[0].data + delim_s(b) + tail_encoding(
            b,
            fs.drop_first(),
        )
    }
}


/// An encoded body is the opening boundary marker followed by the tail.
proof fn lemma_encode_body_tail(b: Seq<u8>, fs: Seq<FieldModel>)
    ensures
        encode_body(b, fs) == dashes_s() + b + tail_encoding(b, fs),
    decreases fs.len(),
{
    if fs.len() == 0 {
        assert(encode_body(b, fs) =~= dashes_s() + b + (dashes_s() + crlf_s()));
    } else {
        lemma_encode_body_tail(b, fs.drop_first());
        let e0 = encode_field(b, fs[0]);
        let restf = encode_fields(b, fs.drop_first());
        assert(encode_fields(b, fs) == e0 + restf);
        assert(encode_body(b, fs.drop_first()) == restf + dashes_s() + b + dashes_s() + crlf_s());
        assert(encode_body(b, fs) =~= e0 + encode_body(b, fs.drop_first()));
        let x = dashes_s() + b + tail_encoding(b, fs.drop_first());
        assert(encode_body(b, fs.drop_first()) == x);
        assert(e0 + x =~= dashes_s() + b + tail_encoding(b, fs));
        assert(encode_body(b, fs) == e0 + x);
    }
}

/// One well-formed encoded part followed by more input parses to the
/// field and hands the rest of the input on.
#[verifier::rlimit(100)]
#[verifier::spinoff_prover]
proof fn lemma_parse_part_step(b: Seq<u8>, f: FieldModel, tail: Seq<u8>)
    requires
        wf_field(f, b),
    ensures
        parse_parts(crlf_s() + header_block(f) + f.data + delim_s(b) + tail, b) == (
        match parse_parts(tail, b) {
            Some(fs) => Some(seq![f] + fs),
            None => None::<Seq<FieldModel>>,
        }),
{
    let rest = crlf_s() + header_block(f) + f.data + delim_s(b) + tail;
    assert(rest[0] == 13u8);
    if rest.len() == 4 && starts_with(rest, dashes_s() + crlf_s()) {
        assert(rest.subrange(0, 4)[0] == rest[0]);
        assert(false);
    }
    assert(rest.subrange(0, 2) =~= crlf_s());
    assert(starts_with(rest, crlf_s()));
    let fpart: Seq<u8> = match f.filename {
        Some(fname) => fname_prefix_s() + fname + quote_s(),
        None => Seq::<u8>::empty(),
    };
    let mpart: Seq<u8> = match f.mime {
        Some(m) => ctype_prefix_s() + m + crlf_s(),
        None => Seq::<u8>::empty(),
    };
    let dtail = mpart + crlf_s() + (f.data + delim_s(b) + tail);
    assert(rest.skip(2) =~= disp_prefix_s() + f.name + quote_s() + fpart + crlf_s() + dtail);
    lemma_parse_disposition_encode(f.name, f.filename, dtail);
    assert(parse_disposition(rest.skip(2)) == Some(((f.name, f.filename), dtail)));
    lemma_parse_ctype_encode(f.mime, f.data + delim_s(b) + tail);
    assert(parse_ctype(dtail) == Some((f.mime, f.data + delim_s(b) + tail)));
    lemma_parse_data_encode(f.data, b, tail);
    assert(parse_data(f.data + delim_s(b) + tail, b) == Some((f.data, tail)));
    assert(tail.len() < rest.len());
    let built = FieldModel { name: f.name, filename: f.filename, mime: f.mime, data: f.data };
    assert(built == f);
}

/// The tail of an encoded body parses back to exactly its fields.
#[verifier::rlimit(100)]
proof fn lemma_parse_tail(b: Seq<u8>, fs: Seq<FieldModel>)
    requires
        wf_fields(fs, b),
    ensures
        parse_parts(tail_encoding(b, fs), b) == Some(fs),
    decreases fs.len(),
{
    let rest = tail_encoding(b, fs);
    if fs.len() == 0 {
        assert(rest.len() == 4);
        assert(rest.subrange(0, 4) =~= dashes_s() + crlf_s());
        assert(starts_with(rest, dashes_s() + crlf_s()));
        assert(parse_parts(rest, b) == Some(Seq::<FieldModel>::empty()));
        assert(fs =~= Seq::<FieldModel>::empty());
    } else {
        let f = fs[0];
        assert(wf_field(f, b));
        let tail = tail_encoding(b, fs.drop_first());
        assert(rest == crlf_s() + header_block(f) + f.data + delim_s(b) + tail);
        assert(wf_fields(fs.drop_first(), b)) by {
            assert(forall|i: int|
                0 <= i < fs.drop_first().len() ==> #[trigger] fs.drop_first()[i] == fs[i + 1]);
        }
        lemma_parse_tail(b, fs.drop_first());
        lemma_parse_part_step(b, f, tail);
        assert(seq![f] + fs.drop_first() =~= fs);
    }
}

/// Round trip: a multipart body encoded from well-formed fields parses
/// back to exactly those fields, in order, with their names, filenames,
/// mime values and byte-exact payloads.
pub proof fn lemma_multipart_round_trip(b: Seq<u8>, fs: Seq<FieldModel>)
    requires
        wf_fields(fs, b),
    ensures
        parse_body(encode_body(b, fs), b) == Some(fs),
{
    lemma_encode_body_tail(b, fs);
    let body = encode_body(b, fs);
    let tail = tail_encoding(b, fs);
    assert(body == dashes_s() + b + tail);
    assert(body.subrange(0, 2 + b.len() as int) =~= dashes_s() + b);
    assert(starts_with(body, dashes_s() + b));
    assert(body.skip(2 + b.len() as int) =~= tail);
    lemma_parse_tail(b, fs);
}


/// A token that quote-scanning yields holds no quote itself.
proof fn lemma_parse_quoted_wf(r: Seq<u8>)
    ensures
        match parse_quoted(r) {
            Some(t) => quote_free(t.0),
            None => true,
        },
{
    lemma_first_match_from(r, quote_s(), 0);
    match first_match_from(r, quote_s(), 0) {
        Some(q) => {
            if 0 <= q && q + 1 <= r.len() {
                let t = r.take(q);
                assert forall|k: int| 0 <= k < t.len() implies t[k] != 34u8 by {
                    if t[k] == 34u8 {
                        assert(r.subrange(k, k + 1) =~= quote_s());
                        assert(match_at(r, quote_s(), k));
                    }
                }
            }
        },
        None => {},
    }
}

/// A name or filename that the disposition line yields holds no quote.
proof fn lemma_parse_disposition_wf(r: Seq<u8>)
    ensures
        match parse_disposition(r) {
            Some(t) => quote_free(t.0.0) && (match t.0.1 {
                Some(fname) => quote_free(fname),
                None => true,
            }),
            None => true,
        },
{
    if starts_with(r, disp_prefix_s()) {
        lemma_parse_quoted_wf(r.skip(38));
        match parse_quoted(r.skip(38)) {
            Some((name, r2)) => {
                if starts_with(r2, crlf_s()) {
                } else if starts_with(r2, fname_prefix_s()) {
                    lemma_parse_quoted_wf(r2.skip(12));
                }
            },
            None => {},
        }
    }
}

/// A mime value that the content-type line yields holds no line break.
proof fn lemma_parse_ctype_wf(r: Seq<u8>)
    ensures
        match parse_ctype(r) {
            Some(t) => match t.0 {
                Some(m) => crlf_free(m),
                None => true,
            },
            None => true,
        },
{
    if starts_with(r, crlf_s()) {
    } else if starts_with(r, ctype_prefix_s()) {
        let r2 = r.skip(14);
        lemma_first_match_from(r2, crlf_s(), 0);
        match first_match_from(r2, crlf_s(), 0) {
            Some(m) => {
                if 0 <= m && m + 2 <= r2.len() {
                    let t = r2.take(m);
                    assert forall|k: int|
                        0 <= k && k + 2 <= t.len() implies !(#[trigger] t[k] == 13u8 && t[k + 1]
                        == 10u8) by {
                        if t[k] == 13u8 && t[k + 1] == 10u8 {
                            assert(r2.subrange(k, k + 2) =~= crlf_s());
                            assert(match_at(r2, crlf_s(), k));
                        }
                    }
                }
            },
            None => {},
        }
    }
}

/// A payload that delimiter-scanning yields holds no delimiter start.
proof fn lemma_parse_data_wf(r: Seq<u8>, b: Seq<u8>)
    ensures
        match parse_data(r, b) {
            Some(t) => delimiter_free(t.0, delim_s(b)),
            None => true,
        },
{
    let d = delim_s(b);
    lemma_first_match_from(r, d, 0);
    match first_match_from(r, d, 0) {
        Some(m) => {
            if 0 <= m && m + d.len() <= r.len() {
                let t = r.take(m);
                assert(match_at(r, d, m));
                assert forall|k: int| 0 <= k < t.len() implies !match_at(t + d, d, k) by {
                    if match_at(t + d, d, k) {
                        assert((t + d).subrange(k, k + d.len() as int) =~= r.subrange(
                            k,
                            k + d.len() as int,
                        ));
                        assert(match_at(r, d, k));
                    }
                }
            }
        },
        None => {},
    }
}

/// Whatever a body parses to is well formed for its boundary: parsing
/// yields only fields that the same boundary can carry back.
#[verifier::rlimit(100)]
#[verifier::spinoff_prover]
pub proof fn lemma_parse_parts_wf(rest: Seq<u8>, b: Seq<u8>)
    ensures
        match parse_parts(rest, b) {
            Some(fs) => wf_fields(fs, b),
            None => true,
        },
    decreases rest.len(),
{
    if rest.len() == 4 && starts_with(rest, dashes_s() + crlf_s()) {
    } else if starts_with(rest, crlf_s()) {
        lemma_parse_disposition_wf(rest.skip(2));
        match parse_disposition(rest.skip(2)) {
            Some(((name, filename), r2)) => {
                lemma_parse_ctype_wf(r2);
                match parse_ctype(r2) {
                    Some((mime, r3)) => {
                        lemma_parse_data_wf(r3, b);
                        match parse_data(r3, b) {
                            Some((data, r4)) => {
                                if r4.len() < rest.len() {
                                    lemma_parse_parts_wf(r4, b);
                                    match parse_parts(r4, b) {
                                        Some(fields) => {
                                            let f = FieldModel { name, filename, mime, data };
                                            let all = seq![f] + fields;
                                            assert(all[0] == f);
                                            assert forall|i: int|
                                                0 <= i < all.len() implies wf_field(
                                                #[trigger] all[i],
                                                b,
                                            ) by {
                                                if i > 0 {
                                                    assert(all[i] == fields[i - 1]);
                                                }
                                            }
                                        },
                                        None => {},
                                    }
                                }
                            },
                            None => {},
                        }
                    },
                    None => {},
                }
            },
            None => {},
        }
    }
}

/// The same, of a whole body.
pub proof fn lemma_parse_body_wf(body: Seq<u8>, b: Seq<u8>)
    ensures
        match parse_body(body, b) {
            Some(fs) => wf_fields(fs, b),
            None => true,
        },
{
    if starts_with(body, dashes_s() + b) {
        lemma_parse_parts_wf(body.skip(2 + b.len() as int), b);
    }
}

} // verus!





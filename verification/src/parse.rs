//! The link-record line parser and its canonical renderer: one line holds a
//! link identifier and exactly two anchored objects, each either a frozen
//! text fragment or a live path.

use vstd::prelude::*;
use crate::bytes::copy_bytes;
use crate::bytes::bytes_eq;
use crate::bytes::dec_render;
use crate::bytes::dec_value_opt;
use crate::bytes::is_dec_digit;
use crate::bytes::hex_of_bytes;
use crate::bytes::lemma_dec_render_parses;
use crate::bytes::lemma_dec_render_props;
use crate::bytes::lemma_hex_of_bytes_digits;
use crate::bytes::lemma_split_of_join;
use crate::bytes::lemma_split_tokens_sep_free;
use crate::bytes::parse_dec;
use crate::bytes::push_dec;
use crate::bytes::spec_join;
use crate::bytes::spec_split;
use crate::bytes::views_of;
use crate::ids::LinkId;
use crate::ids::ObjectId;
use crate::ids::lemma_oid_hex_roundtrip;
use crate::ids::lemma_uuid_render_roundtrip;
use crate::ids::oid_bytes_of_text;
use crate::ids::oid_text_wf;
use crate::ids::parse_link_id;
use crate::ids::parse_object_id;
use crate::ids::uuid_bytes_of_text;
use crate::ids::uuid_hyph_render;
use crate::ids::uuid_text_wf;

verus! {

/// Which span field of a fragment failed to parse.
#[derive(Debug, Clone, Copy, PartialEq, Eq, Structural)]
pub enum SpanField {
    StartLine,
    StartColumn,
    EndLine,
    EndColumn,
}

/// Why a link-record line was refused.
#[derive(Debug, Clone, Copy, PartialEq, Eq, Structural)]
pub enum ParseError {
    /// The first token does not name a UUID.
    InvalidIdentifier,
    /// An object was expected and no token is left.
    MissingObject,
    /// `fragment` was followed by fewer than five tokens.
    TruncatedFragment,
    /// The token after `fragment` does not name a content identifier.
    InvalidBlobId,
    /// A span token is not a non-negative integer that fits.
    InvalidSpanValue(SpanField),
    /// `path` was not followed by a token.
    MissingPathValue,
    /// The object keyword is neither `fragment` nor `path`.
    UnknownObjectKind,
}

/// An anchored object: a frozen fragment of a historical blob, or a live
/// repository path.
#[derive(Debug, PartialEq, Eq)]
pub enum Object {
    Fragment {
        blob_id: ObjectId,
        starting_line: usize,
        starting_column: usize,
        ending_line: usize,
        ending_column: usize,
    },
    Path(Vec<u8>),
}

/// The mathematical value of an `Object`.
#[verifier::ext_equal]
pub enum ObjectV {
    Fragment {
        blob_id: Seq<u8>,
        starting_line: usize,
        starting_column: usize,
        ending_line: usize,
        ending_column: usize,
    },
    Path(Seq<u8>),
}

impl View for Object {
    type V = ObjectV;

    open spec fn view(&self) -> ObjectV {
        match self {
            Object::Fragment { blob_id, starting_line, starting_column, ending_line, ending_column }
                => ObjectV::Fragment {
                blob_id: blob_id@,
                starting_line: *starting_line,
                starting_column: *starting_column,
                ending_line: *ending_line,
                ending_column: *ending_column,
            },
            Object::Path(p) => ObjectV::Path(p@),
        }
    }
}

/// A fragment's content identifier has twenty bytes; a path holds no space,
/// so the canonical rendering stays one token.
pub open spec fn object_v_wf(o: ObjectV) -> bool {
    match o {
        ObjectV::Fragment { blob_id, .. } => blob_id.len() == 20,
        ObjectV::Path(p) => forall|j: int| 0 <= j < p.len() ==> p[j] != 32,
    }
}

/// One link: an identifier, exactly two objects, and a reserved flag that no
/// line interprets yet.
#[derive(Debug, PartialEq, Eq)]
pub struct Link {
    pub id: LinkId,
    pub first: Object,
    pub second: Object,
    pub reserved_flag: bool,
}

/// The mathematical value of a `Link`.
#[verifier::ext_equal]
pub struct LinkV {
    pub id: Seq<u8>,
    pub first: ObjectV,
    pub second: ObjectV,
    pub reserved_flag: bool,
}

impl View for Link {
    type V = LinkV;

    open spec fn view(&self) -> LinkV {
        LinkV { id: self.id@, first: self.first@, second: self.second@, reserved_flag: self.reserved_flag }
    }
}

pub open spec fn link_v_wf(l: LinkV) -> bool {
    l.id.len() == 16 && object_v_wf(l.first) && object_v_wf(l.second) && !l.reserved_flag
}

impl Link {
    pub open spec fn wf(&self) -> bool {
        link_v_wf(self@)
    }
}

// ---------------------------------------------------------------------------
// The grammar over whitespace-split tokens.
// ---------------------------------------------------------------------------

pub open spec fn kw_fragment() -> Seq<u8> {
    seq![102u8, 114u8, 97u8, 103u8, 109u8, 101u8, 110u8, 116u8]
}

pub open spec fn kw_path() -> Seq<u8> {
    seq![112u8, 97u8, 116u8, 104u8]
}

/// What one object means, read at token position `pos`: the object and the
/// position after it, or the error the grammar assigns.
pub open spec fn spec_parse_object(toks: Seq<Seq<u8>>, pos: int) -> Result<
    (ObjectV, int),
    ParseError,
> {
    if pos >= toks.len() {
        Err(ParseError::MissingObject)
    } else if toks[pos] == kw_fragment() {
        if toks.len() - (pos + 1) < 5 {
            Err(ParseError::TruncatedFragment)
        } else if !oid_text_wf(toks[pos + 1]) {
            Err(ParseError::InvalidBlobId)
        } else {
            match dec_value_opt(toks[pos + 2]) {
                None => Err(ParseError::InvalidSpanValue(SpanField::StartLine)),
                Some(sl) => match dec_value_opt(toks[pos + 3]) {
                    None => Err(ParseError::InvalidSpanValue(SpanField::StartColumn)),
                    Some(sc) => match dec_value_opt(toks[pos + 4]) {
                        None => Err(ParseError::InvalidSpanValue(SpanField::EndLine)),
                        Some(el) => match dec_value_opt(toks[pos + 5]) {
                            None => Err(ParseError::InvalidSpanValue(SpanField::EndColumn)),
                            Some(ec) => Ok(
                                (
                                    ObjectV::Fragment {
                                        blob_id: oid_bytes_of_text(toks[pos + 1]),
                                        starting_line: sl,
                                        starting_column: sc,
                                        ending_line: el,
                                        ending_column: ec,
                                    },
                                    pos + 6,
                                ),
                            ),
                        },
                    },
                },
            }
        }
    } else if toks[pos] == kw_path() {
        if pos + 1 >= toks.len() {
            Err(ParseError::MissingPathValue)
        } else {
            Ok((ObjectV::Path(toks[pos + 1]), pos + 2))
        }
    } else {
        Err(ParseError::UnknownObjectKind)
    }
}

/// What a token sequence means as a link: the identifier, then two objects;
/// any further tokens are reserved flag space and are not interpreted.
pub open spec fn spec_parse_link(toks: Seq<Seq<u8>>) -> Result<LinkV, ParseError> {
    if toks.len() == 0 || !uuid_text_wf(toks[0]) {
        Err(ParseError::InvalidIdentifier)
    } else {
        match spec_parse_object(toks, 1) {
            Err(e) => Err(e),
            Ok((o1, p1)) => match spec_parse_object(toks, p1) {
                Err(e) => Err(e),
                Ok((o2, _p2)) => Ok(
                    LinkV {
                        id: uuid_bytes_of_text(toks[0]),
                        first: o1,
                        second: o2,
                        reserved_flag: false,
                    },
                ),
            },
        }
    }
}

/// What one line of text means: its space-split tokens, read as a link.
pub open spec fn spec_parse_line(line: Seq<u8>) -> Result<LinkV, ParseError> {
    spec_parse_link(spec_split(line, 32))
}

// ---------------------------------------------------------------------------
// Executable parsing.
// ---------------------------------------------------------------------------

fn kw_fragment_vec() -> (v: Vec<u8>)
    ensures
        v@ == kw_fragment(),
{
    let mut v: Vec<u8> = Vec::new();
    v.push(102);
    v.push(114);
    v.push(97);
    v.push(103);
    v.push(109);
    v.push(101);
    v.push(110);
    v.push(116);
    proof {
        assert(v@ =~= kw_fragment());
    }
    v
}

fn kw_path_vec() -> (v: Vec<u8>)
    ensures
        v@ == kw_path(),
{
    let mut v: Vec<u8> = Vec::new();
    v.push(112);
    v.push(97);
    v.push(116);
    v.push(104);
    proof {
        assert(v@ =~= kw_path());
    }
    v
}

impl Object {
    /// Reads one object from the tokens at `pos`, handing back the position
    /// after it.
    pub fn from_tokens(toks: &Vec<Vec<u8>>, pos: usize) -> (r: Result<(Object, usize), ParseError>)
        ensures
            match r {
                Ok((o, p)) => spec_parse_object(views_of(toks@), pos as int) == Ok::<
                    (ObjectV, int),
                    ParseError,
                >((o@, p as int)) && pos < p <= toks@.len(),
                Err(e) => spec_parse_object(views_of(toks@), pos as int) == Err::<
                    (ObjectV, int),
                    ParseError,
                >(e),
            },
    {
        let ghost tv = views_of(toks@);
        if pos >= toks.len() {
            return Err(ParseError::MissingObject);
        }
        if bytes_eq(&toks[pos], &kw_fragment_vec()) {
            if toks.len() - pos - 1 < 5 {
                return Err(ParseError::TruncatedFragment);
            }
            let blob = match parse_object_id(&toks[pos + 1]) {
                None => {
                    return Err(ParseError::InvalidBlobId);
                },
                Some(b) => b,
            };
            let sl = match parse_dec(&toks[pos + 2]) {
                None => {
                    return Err(ParseError::InvalidSpanValue(SpanField::StartLine));
                },
                Some(v) => v,
            };
            let sc = match parse_dec(&toks[pos + 3]) {
                None => {
                    return Err(ParseError::InvalidSpanValue(SpanField::StartColumn));
                },
                Some(v) => v,
            };
            let el = match parse_dec(&toks[pos + 4]) {
                None => {
                    return Err(ParseError::InvalidSpanValue(SpanField::EndLine));
                },
                Some(v) => v,
            };
            let ec = match parse_dec(&toks[pos + 5]) {
                None => {
                    return Err(ParseError::InvalidSpanValue(SpanField::EndColumn));
                },
                Some(v) => v,
            };
            Ok(
                (
                    Object::Fragment {
                        blob_id: blob,
                        starting_line: sl,
                        starting_column: sc,
                        ending_line: el,
                        ending_column: ec,
                    },
                    pos + 6,
                ),
            )
        } else if bytes_eq(&toks[pos], &kw_path_vec()) {
            if pos + 1 >= toks.len() {
                return Err(ParseError::MissingPathValue);
            }
            let p = copy_bytes(&toks[pos + 1]);
            Ok((Object::Path(p), pos + 2))
        } else {
            Err(ParseError::UnknownObjectKind)
        }
    }
}

impl Link {
    /// Reads one line, already split from the record text, as a link.
    pub fn from_line(line: &Vec<u8>) -> (r: Result<Link, ParseError>)
        ensures
            match r {
                Ok(l) => spec_parse_line(line@) == Ok::<LinkV, ParseError>(l@) && l.wf(),
                Err(e) => spec_parse_line(line@) == Err::<LinkV, ParseError>(e),
            },
    {
        let toks = split_line_tokens(line);
        Link::from_tokens(&toks)
    }

    /// Reads a token sequence as a link.  Path tokens must hold no space;
    /// tokens split from a line always satisfy that.
    pub fn from_tokens(toks: &Vec<Vec<u8>>) -> (r: Result<Link, ParseError>)
        requires
            forall|i: int, j: int|
                0 <= i < toks@.len() && 0 <= j < toks@[i]@.len() ==> toks@[i]@[j] != 32,
        ensures
            match r {
                Ok(l) => spec_parse_link(views_of(toks@)) == Ok::<LinkV, ParseError>(l@) && l.wf(),
                Err(e) => spec_parse_link(views_of(toks@)) == Err::<LinkV, ParseError>(e),
            },
    {
        let ghost tv = views_of(toks@);
        if toks.len() == 0 {
            return Err(ParseError::InvalidIdentifier);
        }
        let id = match parse_link_id(&toks[0]) {
            None => {
                return Err(ParseError::InvalidIdentifier);
            },
            Some(id) => id,
        };
        let (first, p1) = match Object::from_tokens(toks, 1) {
            Err(e) => {
                return Err(e);
            },
            Ok(op) => op,
        };
        let (second, _p2) = match Object::from_tokens(toks, p1) {
            Err(e) => {
                return Err(e);
            },
            Ok(op) => op,
        };
        let l = Link { id, first, second, reserved_flag: false };
        proof {
            lemma_parse_object_wf(tv, 1);
            lemma_parse_object_wf(tv, p1 as int);
        }
        Ok(l)
    }
}

/// Splits a line into its space-separated tokens.
pub fn split_line_tokens(line: &Vec<u8>) -> (toks: Vec<Vec<u8>>)
    ensures
        views_of(toks@) == spec_split(line@, 32),
        forall|i: int, j: int|
            0 <= i < toks@.len() && 0 <= j < toks@[i]@.len() ==> toks@[i]@[j] != 32,
{
    let toks = crate::bytes::split_bytes(line, 32);
    proof {
        lemma_split_tokens_sep_free(line@, 32);
        assert forall|i: int, j: int|
            0 <= i < toks@.len() && 0 <= j < toks@[i]@.len() implies toks@[i]@[j] != 32 by {
            assert(views_of(toks@)[i] == toks@[i]@);
        }
    }
    toks
}

// ---------------------------------------------------------------------------
// Canonical rendering, and the round trip.
// ---------------------------------------------------------------------------

/// The canonical tokens of one object.
pub open spec fn spec_object_tokens(o: ObjectV) -> Seq<Seq<u8>> {
    match o {
        ObjectV::Fragment { blob_id, starting_line, starting_column, ending_line, ending_column }
            => seq![
            kw_fragment(),
            hex_of_bytes(blob_id),
            dec_render(starting_line as int),
            dec_render(starting_column as int),
            dec_render(ending_line as int),
            dec_render(ending_column as int),
        ],
        ObjectV::Path(p) => seq![kw_path(), p],
    }
}

/// The canonical tokens of one link.
pub open spec fn spec_link_tokens(l: LinkV) -> Seq<Seq<u8>> {
    seq![uuid_hyph_render(l.id)] + spec_object_tokens(l.first) + spec_object_tokens(l.second)
}

/// The canonical rendering of one link as a line, tokens joined by single
/// spaces.
pub open spec fn spec_render_link(l: LinkV) -> Seq<u8> {
    spec_join(spec_link_tokens(l), 32)
}

fn push_object_tokens(ts: &mut Vec<Vec<u8>>, o: &Object)
    requires
        object_v_wf(o@),
    ensures
        views_of(final(ts)@) == views_of(old(ts)@) + spec_object_tokens(o@),
{
    match o {
        Object::Fragment { blob_id, starting_line, starting_column, ending_line, ending_column }
            => {
            ts.push(kw_fragment_vec());
            ts.push(blob_id.to_hex());
            let mut d0: Vec<u8> = Vec::new();
            push_dec(&mut d0, *starting_line);
            ts.push(d0);
            let mut d1: Vec<u8> = Vec::new();
            push_dec(&mut d1, *starting_column);
            ts.push(d1);
            let mut d2: Vec<u8> = Vec::new();
            push_dec(&mut d2, *ending_line);
            ts.push(d2);
            let mut d3: Vec<u8> = Vec::new();
            push_dec(&mut d3, *ending_column);
            ts.push(d3);
            proof {
                assert(views_of(ts@) =~= views_of(old(ts)@) + spec_object_tokens(o@));
            }
        },
        Object::Path(p) => {
            ts.push(kw_path_vec());
            ts.push(copy_bytes(p));
            proof {
                assert(views_of(ts@) =~= views_of(old(ts)@) + spec_object_tokens(o@));
            }
        },
    }
}

/// Joins tokens with a separator byte.
pub fn join_bytes(ts: &Vec<Vec<u8>>, sep: u8) -> (out: Vec<u8>)
    requires
        ts@.len() >= 1,
    ensures
        out@ == spec_join(views_of(ts@), sep),
{
    let ghost tv = views_of(ts@);
    let mut out: Vec<u8> = Vec::new();
    let mut i: usize = 0;
    while i < ts.len()
        invariant
            0 <= i <= tv.len(),
            tv == views_of(ts@),
            tv.len() == ts@.len() >= 1,
            i == 0 ==> out@.len() == 0,
            i > 0 ==> out@ == spec_join(tv.take(i as int), sep),
        decreases ts@.len() - i,
    {
        if i > 0 {
            out.push(sep);
        }
        let mut j: usize = 0;
        let ghost mid = out@;
        while j < ts[i].len()
            invariant
                0 <= j <= ts@[i as int]@.len(),
                0 <= i < ts@.len(),
                out@ == mid + ts@[i as int]@.take(j as int),
            decreases ts@[i as int]@.len() - j,
        {
            out.push(ts[i][j]);
            proof {
                assert(ts@[i as int]@.take(j as int + 1)
                    =~= ts@[i as int]@.take(j as int).push(ts@[i as int]@[j as int]));
                assert(out@ =~= mid + ts@[i as int]@.take(j as int + 1));
            }
            j = j + 1;
        }
        proof {
            assert(ts@[i as int]@.take(ts@[i as int]@.len() as int) =~= ts@[i as int]@);
            assert(tv[i as int] == ts@[i as int]@);
            if i == 0 {
                assert(tv.take(1) =~= seq![tv[0]]);
                assert(spec_join(tv.take(1), sep) == tv[0]);
                assert(out@ =~= tv[0]);
            } else {
                lemma_join_push(tv.take(i as int), tv[i as int], sep);
                assert(tv.take(i as int).push(tv[i as int]) =~= tv.take(i as int + 1));
                assert(out@ =~= spec_join(tv.take(i as int), sep) + seq![sep] + tv[i as int]);
            }
        }
        i = i + 1;
    }
    proof {
        assert(tv.take(tv.len() as int) =~= tv);
    }
    out
}

/// Appending one token to a join appends a separator and the token.
pub proof fn lemma_join_push(ts: Seq<Seq<u8>>, t: Seq<u8>, sep: u8)
    requires
        ts.len() >= 1,
    ensures
        spec_join(ts.push(t), sep) == spec_join(ts, sep) + seq![sep] + t,
    decreases ts.len(),
{
    if ts.len() == 1 {
        assert(ts.push(t)[0] == ts[0]);
        assert(ts.push(t).skip(1) =~= seq![t]);
        assert(spec_join(ts.push(t).skip(1), sep) == t);
        assert(spec_join(ts.push(t), sep) == ts[0] + seq![sep] + t);
        assert(spec_join(ts, sep) == ts[0]);
    } else {
        lemma_join_push(ts.skip(1), t, sep);
        assert(ts.push(t).skip(1) =~= ts.skip(1).push(t));
        assert(ts.push(t)[0] == ts[0]);
        assert(spec_join(ts.push(t), sep) == ts[0] + seq![sep] + spec_join(ts.skip(1).push(t), sep));
        assert(ts[0] + seq![sep] + (spec_join(ts.skip(1), sep) + seq![sep] + t)
            =~= (ts[0] + seq![sep] + spec_join(ts.skip(1), sep)) + seq![sep] + t);
    }
}

/// Renders a link canonically: its tokens joined by single spaces.
pub fn render_link(l: &Link) -> (out: Vec<u8>)
    requires
        l.wf(),
    ensures
        out@ == spec_render_link(l@),
{
    let mut ts: Vec<Vec<u8>> = Vec::new();
    ts.push(l.id.to_hyphenated());
    push_object_tokens(&mut ts, &l.first);
    push_object_tokens(&mut ts, &l.second);
    proof {
        assert(views_of(ts@) =~= spec_link_tokens(l@));
    }
    join_bytes(&ts, 32)
}

// ---------------------------------------------------------------------------
// Laws of the grammar.
// ---------------------------------------------------------------------------

/// No canonical token holds a space, and there is at least one.
proof fn lemma_object_tokens_sep_free(o: ObjectV)
    requires
        object_v_wf(o),
    ensures
        forall|i: int, j: int|
            0 <= i < spec_object_tokens(o).len() && 0 <= j < spec_object_tokens(o)[i].len()
                ==> spec_object_tokens(o)[i][j] != 32,
{
    match o {
        ObjectV::Fragment { blob_id, starting_line, starting_column, ending_line, ending_column }
            => {
            lemma_hex_of_bytes_digits(blob_id);
            lemma_dec_render_props(starting_line as int);
            lemma_dec_render_props(starting_column as int);
            lemma_dec_render_props(ending_line as int);
            lemma_dec_render_props(ending_column as int);
            assert forall|i: int, j: int|
                0 <= i < spec_object_tokens(o).len() && 0 <= j < spec_object_tokens(o)[i].len()
                    implies spec_object_tokens(o)[i][j] != 32 by {
                let ts = spec_object_tokens(o);
                if i == 2 || i == 3 || i == 4 || i == 5 {
                    assert(is_dec_digit(ts[i][j]));
                }
            }
        },
        ObjectV::Path(_) => {
        },
    }
}

/// Reading back the canonical tokens of an object gives the object.
proof fn lemma_object_tokens_reparse(toks: Seq<Seq<u8>>, pos: int, o: ObjectV)
    requires
        object_v_wf(o),
        0 <= pos,
        pos + spec_object_tokens(o).len() <= toks.len(),
        forall|k: int| 0 <= k < spec_object_tokens(o).len() ==> toks[pos + k]
            == spec_object_tokens(o)[k],
    ensures
        spec_parse_object(toks, pos) == Ok::<(ObjectV, int), ParseError>(
            (o, pos + spec_object_tokens(o).len()),
        ),
{
    match o {
        ObjectV::Fragment { blob_id, starting_line, starting_column, ending_line, ending_column }
            => {
            assert(toks[pos] == kw_fragment());
            lemma_oid_hex_roundtrip(blob_id);
            assert(toks[pos + 1] == hex_of_bytes(blob_id));
            lemma_dec_render_parses(starting_line);
            lemma_dec_render_parses(starting_column);
            lemma_dec_render_parses(ending_line);
            lemma_dec_render_parses(ending_column);
            assert(toks[pos + 2] == dec_render(starting_line as int));
            assert(toks[pos + 3] == dec_render(starting_column as int));
            assert(toks[pos + 4] == dec_render(ending_line as int));
            assert(toks[pos + 5] == dec_render(ending_column as int));
            assert(spec_parse_object(toks, pos) matches Ok((ov, p)) && ov =~= o
                && p == pos + 6);
        },
        ObjectV::Path(p) => {
            assert(toks[pos] == kw_path());
            assert(kw_path().len() != kw_fragment().len());
            assert(toks[pos] != kw_fragment());
            assert(toks[pos + 1] == p);
            assert(spec_parse_object(toks, pos) matches Ok((ov, q)) && ov =~= o && q == pos + 2);
        },
    }
}

/// Parsing a line, rendering the link canonically, and parsing again yields
/// the very same link value: re-rendering loses nothing the grammar keeps.
pub proof fn lemma_parse_render_roundtrip(lv: LinkV)
    requires
        link_v_wf(lv),
    ensures
        spec_parse_line(spec_render_link(lv)) == Ok::<LinkV, ParseError>(lv),
{
    let ts = spec_link_tokens(lv);
    let t1 = spec_object_tokens(lv.first);
    let t2 = spec_object_tokens(lv.second);
    lemma_uuid_render_roundtrip(lv.id);
    lemma_object_tokens_sep_free(lv.first);
    lemma_object_tokens_sep_free(lv.second);
    assert forall|i: int, j: int| 0 <= i < ts.len() && 0 <= j < ts[i].len() implies ts[i][j] != 32
        by {
        if i == 0 {
            assert(ts[0] == uuid_hyph_render(lv.id));
        } else if i < 1 + t1.len() {
            assert(ts[i] == t1[i - 1]);
        } else {
            assert(ts[i] == t2[i - 1 - t1.len()]);
        }
    }
    lemma_split_of_join(ts, 32);
    assert(spec_split(spec_render_link(lv), 32) == ts);
    assert(ts[0] == uuid_hyph_render(lv.id));
    assert(uuid_text_wf(ts[0]));
    assert(uuid_bytes_of_text(ts[0]) == lv.id);
    assert(forall|k: int| 0 <= k < t1.len() ==> ts[1 + k] == t1[k]);
    lemma_object_tokens_reparse(ts, 1, lv.first);
    let p1 = 1 + t1.len();
    assert(forall|k: int| 0 <= k < t2.len() ==> ts[p1 + k] == t2[k]);
    lemma_object_tokens_reparse(ts, p1 as int, lv.second);
    assert(spec_parse_link(ts) matches Ok(out) && out =~= lv);
}

/// Whatever a line parses to, it parses to again after canonical
/// re-rendering: parse, render, parse is the identity on parsed links.
pub proof fn lemma_reparse_identity(line: Seq<u8>, lv: LinkV)
    requires
        spec_parse_line(line) == Ok::<LinkV, ParseError>(lv),
    ensures
        link_v_wf(lv),
        spec_parse_line(spec_render_link(lv)) == Ok::<LinkV, ParseError>(lv),
{
    lemma_parse_line_wf(line, lv);
    lemma_parse_render_roundtrip(lv);
}

/// A parsed link is well formed: identifier and blob lengths hold, path
/// tokens hold no space, and the reserved flag is clear.
proof fn lemma_parse_line_wf(line: Seq<u8>, lv: LinkV)
    requires
        spec_parse_line(line) == Ok::<LinkV, ParseError>(lv),
    ensures
        link_v_wf(lv),
{
    let toks = spec_split(line, 32);
    lemma_split_tokens_sep_free(line, 32);
    match spec_parse_object(toks, 1) {
        Ok((_o1, p1)) => {
            lemma_parse_object_wf(toks, 1);
            assert(p1 >= 0);
            lemma_parse_object_wf(toks, p1);
        },
        Err(_) => {
        },
    }
}

/// Any object the grammar accepts from space-free tokens is well formed.
proof fn lemma_parse_object_wf(toks: Seq<Seq<u8>>, pos: int)
    requires
        0 <= pos,
        forall|i: int, j: int| 0 <= i < toks.len() && 0 <= j < toks[i].len() ==> toks[i][j] != 32,
    ensures
        spec_parse_object(toks, pos) matches Ok((o, _)) ==> object_v_wf(o),
{
    match spec_parse_object(toks, pos) {
        Ok((o, _p)) => match o {
            ObjectV::Path(pth) => {
                assert(pth == toks[pos + 1]);
                assert forall|j: int| 0 <= j < pth.len() implies pth[j] != 32 by {
                    assert(toks[pos + 1][j] != 32);
                }
            },
            ObjectV::Fragment { blob_id, .. } => {
                assert(blob_id.len() == 20);
            },
        },
        Err(_) => {
        },
    }
}

/// A `fragment` keyword followed by fewer than five tokens never parses,
/// never partially: the line fails with exactly `TruncatedFragment`.
pub proof fn lemma_truncated_fragment_line(toks: Seq<Seq<u8>>)
    requires
        toks.len() >= 2,
        uuid_text_wf(toks[0]),
        toks[1] == kw_fragment(),
        toks.len() - 2 < 5,
    ensures
        spec_parse_link(toks) == Err::<LinkV, ParseError>(ParseError::TruncatedFragment),
{
}

} // verus!

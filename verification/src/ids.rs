//! Content and link identifiers: a repository object identifier of twenty
//! bytes, and a link identifier of sixteen, each with its textual form.
//! Reading the textual forms is delegated to the version-control and UUID
//! libraries behind trusted wrappers with exact contracts; rendering is
//! verified here.

use vstd::prelude::*;
use crate::bytes::all_hex;
use crate::bytes::bytes_eq;
use crate::bytes::copy_bytes;
use crate::bytes::copy_range;
use crate::bytes::hex_digit_lower;
use crate::bytes::hex_of_bytes;
use crate::bytes::hex_val;
use crate::bytes::is_hex_digit;
use crate::bytes::lemma_hex_digit_lower_val;
use crate::bytes::lemma_hex_of_bytes_concat;
use crate::bytes::lemma_hex_of_bytes_digits;
use crate::bytes::lemma_hex_of_bytes_props;
use crate::bytes::push_hex_of_bytes;

verus! {

/// A repository content identifier: the twenty raw bytes of an object id.
#[derive(Debug, PartialEq, Eq)]
pub struct ObjectId {
    pub bytes: Vec<u8>,
}

impl View for ObjectId {
    type V = Seq<u8>;

    open spec fn view(&self) -> Seq<u8> {
        self.bytes@
    }
}

impl ObjectId {
    pub open spec fn wf(&self) -> bool {
        self@.len() == 20
    }

    /// Wraps exactly twenty bytes; refuses any other count.
    pub fn from_bytes(b: &Vec<u8>) -> (r: Option<ObjectId>)
        ensures
            match r {
                Some(id) => b@.len() == 20 && id@ == b@ && id.wf(),
                None => b@.len() != 20,
            },
    {
        if b.len() == 20 {
            Some(ObjectId { bytes: copy_bytes(b) })
        } else {
            None
        }
    }

    /// A fresh identifier with the same bytes.
    pub fn copied(&self) -> (r: ObjectId)
        ensures
            r@ == self@,
            self.wf() ==> r.wf(),
    {
        ObjectId { bytes: copy_bytes(&self.bytes) }
    }

    /// Whether two identifiers hold the same bytes.
    pub fn same(&self, other: &ObjectId) -> (r: bool)
        ensures
            r == (self@ == other@),
    {
        bytes_eq(&self.bytes, &other.bytes)
    }

    /// The forty lower-case hexadecimal digits of the identifier.
    pub fn to_hex(&self) -> (out: Vec<u8>)
        ensures
            out@ == hex_of_bytes(self@),
    {
        let mut out: Vec<u8> = Vec::new();
        push_hex_of_bytes(&mut out, &self.bytes);
        out
    }
}

// ---------------------------------------------------------------------------
// Object-identifier text, as the version-control library reads it.
// ---------------------------------------------------------------------------

/// Text that names an object identifier: one to forty hexadecimal digits of
/// either case; digits name the leading nibbles, the rest are zero.
pub open spec fn oid_text_wf(s: Seq<u8>) -> bool {
    1 <= s.len() && s.len() <= 40 && all_hex(s)
}

pub open spec fn oid_nibble(s: Seq<u8>, p: int) -> int {
    if p < s.len() {
        hex_val(s[p])
    } else {
        0
    }
}

/// The twenty bytes that object-identifier text names.
pub open spec fn oid_bytes_of_text(s: Seq<u8>) -> Seq<u8> {
    Seq::new(20, |i: int| (16 * oid_nibble(s, 2 * i) + oid_nibble(s, 2 * i + 1)) as u8)
}

/// Relies on `git2::Oid::from_str`, which accepts one to forty hexadecimal
/// digits of either case and fills the unnamed trailing nibbles of the
/// twenty-byte identifier with zero, and on `git2::Oid::as_bytes`, which
/// hands those bytes back unchanged.
#[verifier::external_body]
fn oid_token_bytes(tok: &Vec<u8>) -> (r: Option<Vec<u8>>)
    ensures
        match r {
            Some(b) => oid_text_wf(tok@) && b@ == oid_bytes_of_text(tok@),
            None => !oid_text_wf(tok@),
        },
{
    match core::str::from_utf8(tok.as_slice()) {
        Ok(s) => match git2::Oid::from_str(s) {
            Ok(oid) => Some(oid.as_bytes().to_vec()),
            Err(_) => None,
        },
        Err(_) => None,
    }
}

/// Reads object-identifier text, or refuses it.
pub fn parse_object_id(tok: &Vec<u8>) -> (r: Option<ObjectId>)
    ensures
        match r {
            Some(id) => oid_text_wf(tok@) && id@ == oid_bytes_of_text(tok@) && id.wf(),
            None => !oid_text_wf(tok@),
        },
{
    match oid_token_bytes(tok) {
        Some(b) => {
            proof {
                assert(b@.len() == 20);
            }
            Some(ObjectId { bytes: b })
        },
        None => None,
    }
}

/// Rendering an identifier in full and reading the text back is the
/// identity.
pub proof fn lemma_oid_hex_roundtrip(b: Seq<u8>)
    requires
        b.len() == 20,
    ensures
        oid_text_wf(hex_of_bytes(b)),
        oid_bytes_of_text(hex_of_bytes(b)) == b,
    decreases b.len(),
{
    lemma_hex_of_bytes_props(b);
    lemma_hex_of_bytes_digits(b);
    let s = hex_of_bytes(b);
    assert forall|i: int| 0 <= i < 20 implies oid_bytes_of_text(s)[i] == b[i] by {
        lemma_hex_digit_lower_val(b[i] as int / 16);
        lemma_hex_digit_lower_val(b[i] as int % 16);
        assert(s[2 * i] == hex_digit_lower(b[i] as int / 16));
        assert(s[2 * i + 1] == hex_digit_lower(b[i] as int % 16));
        assert(oid_nibble(s, 2 * i) == b[i] as int / 16);
        assert(oid_nibble(s, 2 * i + 1) == b[i] as int % 16);
    }
    assert(oid_bytes_of_text(s) =~= b);
}

// ---------------------------------------------------------------------------
// Link identifiers and UUID text, as the UUID library reads it.
// ---------------------------------------------------------------------------

/// A link identifier: the sixteen raw bytes of a UUID.
#[derive(Debug, PartialEq, Eq)]
pub struct LinkId {
    pub bytes: Vec<u8>,
}

impl View for LinkId {
    type V = Seq<u8>;

    open spec fn view(&self) -> Seq<u8> {
        self.bytes@
    }
}

impl LinkId {
    pub open spec fn wf(&self) -> bool {
        self@.len() == 16
    }

    /// A fresh identifier with the same bytes.
    pub fn copied(&self) -> (r: LinkId)
        ensures
            r@ == self@,
            self.wf() ==> r.wf(),
    {
        LinkId { bytes: copy_bytes(&self.bytes) }
    }

    /// The canonical hyphenated lower-case rendering.
    pub fn to_hyphenated(&self) -> (out: Vec<u8>)
        requires
            self.wf(),
        ensures
            out@ == uuid_hyph_render(self@),
    {
        let mut out: Vec<u8> = Vec::new();
        let g0 = copy_range(&self.bytes, 0, 4);
        let g1 = copy_range(&self.bytes, 4, 6);
        let g2 = copy_range(&self.bytes, 6, 8);
        let g3 = copy_range(&self.bytes, 8, 10);
        let g4 = copy_range(&self.bytes, 10, 16);
        push_hex_of_bytes(&mut out, &g0);
        out.push(45);
        push_hex_of_bytes(&mut out, &g1);
        out.push(45);
        push_hex_of_bytes(&mut out, &g2);
        out.push(45);
        push_hex_of_bytes(&mut out, &g3);
        out.push(45);
        push_hex_of_bytes(&mut out, &g4);
        proof {
            assert(out@ =~= uuid_hyph_render(self@));
        }
        out
    }
}

/// The thirty-two digits of well-formed UUID text, hyphens and wrapping
/// removed.
pub open spec fn uuid_strip_hyphens(s: Seq<u8>) -> Seq<u8> {
    s.subrange(0, 8) + s.subrange(9, 13) + s.subrange(14, 18) + s.subrange(19, 23) + s.subrange(
        24,
        36,
    )
}

pub open spec fn uuid_simple_wf(s: Seq<u8>) -> bool {
    s.len() == 32 && all_hex(s)
}

pub open spec fn uuid_hyph_wf(s: Seq<u8>) -> bool {
    &&& s.len() == 36
    &&& s[8] == 45
    &&& s[13] == 45
    &&& s[18] == 45
    &&& s[23] == 45
    &&& all_hex(uuid_strip_hyphens(s))
}

pub open spec fn uuid_braced_wf(s: Seq<u8>) -> bool {
    s.len() == 38 && s[0] == 123 && s[37] == 125 && uuid_hyph_wf(s.subrange(1, 37))
}

/// The nine-byte prefix `urn:uuid:`, letters of either case.
pub open spec fn uuid_urn_prefix_wf(s: Seq<u8>) -> bool {
    &&& (s[0] == 117 || s[0] == 85)
    &&& (s[1] == 114 || s[1] == 82)
    &&& (s[2] == 110 || s[2] == 78)
    &&& s[3] == 58
    &&& (s[4] == 117 || s[4] == 85)
    &&& (s[5] == 117 || s[5] == 85)
    &&& (s[6] == 105 || s[6] == 73)
    &&& (s[7] == 100 || s[7] == 68)
    &&& s[8] == 58
}

pub open spec fn uuid_urn_wf(s: Seq<u8>) -> bool {
    s.len() == 45 && uuid_urn_prefix_wf(s) && uuid_hyph_wf(s.subrange(9, 45))
}

/// Text that names a UUID: simple, hyphenated, braced or URN form.
pub open spec fn uuid_text_wf(s: Seq<u8>) -> bool {
    uuid_simple_wf(s) || uuid_hyph_wf(s) || uuid_braced_wf(s) || uuid_urn_wf(s)
}

pub open spec fn uuid_digits(s: Seq<u8>) -> Seq<u8> {
    if uuid_simple_wf(s) {
        s
    } else if uuid_hyph_wf(s) {
        uuid_strip_hyphens(s)
    } else if uuid_braced_wf(s) {
        uuid_strip_hyphens(s.subrange(1, 37))
    } else {
        uuid_strip_hyphens(s.subrange(9, 45))
    }
}

/// The sixteen bytes that well-formed UUID text names, in text order.
pub open spec fn uuid_bytes_of_text(s: Seq<u8>) -> Seq<u8> {
    Seq::new(
        16,
        |i: int| (16 * hex_val(uuid_digits(s)[2 * i]) + hex_val(uuid_digits(s)[2 * i + 1])) as u8,
    )
}

/// Relies on `uuid::Uuid::try_parse_ascii`, which accepts exactly the
/// simple, hyphenated, braced and URN forms with digits of either case, and
/// on `uuid::Uuid::as_bytes`, which hands back the sixteen bytes in the
/// order the digits were written.
#[verifier::external_body]
fn uuid_token_bytes(tok: &Vec<u8>) -> (r: Option<Vec<u8>>)
    ensures
        match r {
            Some(b) => uuid_text_wf(tok@) && b@ == uuid_bytes_of_text(tok@),
            None => !uuid_text_wf(tok@),
        },
{
    match uuid::Uuid::try_parse_ascii(tok.as_slice()) {
        Ok(u) => Some(u.as_bytes().to_vec()),
        Err(_) => None,
    }
}

/// Reads UUID text, or refuses it.
pub fn parse_link_id(tok: &Vec<u8>) -> (r: Option<LinkId>)
    ensures
        match r {
            Some(id) => uuid_text_wf(tok@) && id@ == uuid_bytes_of_text(tok@) && id.wf(),
            None => !uuid_text_wf(tok@),
        },
{
    match uuid_token_bytes(tok) {
        Some(b) => {
            proof {
                assert(b@.len() == 16);
            }
            Some(LinkId { bytes: b })
        },
        None => None,
    }
}

/// The canonical hyphenated lower-case rendering of sixteen bytes.
pub open spec fn uuid_hyph_render(b: Seq<u8>) -> Seq<u8> {
    hex_of_bytes(b.subrange(0, 4)) + seq![45u8] + hex_of_bytes(b.subrange(4, 6)) + seq![45u8]
        + hex_of_bytes(b.subrange(6, 8)) + seq![45u8] + hex_of_bytes(b.subrange(8, 10))
        + seq![45u8] + hex_of_bytes(b.subrange(10, 16))
}

/// Rendering a link identifier and reading the text back is the identity,
/// and the rendering holds neither space nor line break.
pub proof fn lemma_uuid_render_roundtrip(b: Seq<u8>)
    requires
        b.len() == 16,
    ensures
        uuid_hyph_wf(uuid_hyph_render(b)),
        uuid_text_wf(uuid_hyph_render(b)),
        uuid_bytes_of_text(uuid_hyph_render(b)) == b,
        forall|j: int| 0 <= j < uuid_hyph_render(b).len() ==> uuid_hyph_render(b)[j] != 32
            && uuid_hyph_render(b)[j] != 10,
{
    let s = uuid_hyph_render(b);
    let b0 = b.subrange(0, 4);
    let b1 = b.subrange(4, 6);
    let b2 = b.subrange(6, 8);
    let b3 = b.subrange(8, 10);
    let b4 = b.subrange(10, 16);
    lemma_hex_of_bytes_props(b0);
    lemma_hex_of_bytes_props(b1);
    lemma_hex_of_bytes_props(b2);
    lemma_hex_of_bytes_props(b3);
    lemma_hex_of_bytes_props(b4);
    lemma_hex_of_bytes_digits(b0);
    lemma_hex_of_bytes_digits(b1);
    lemma_hex_of_bytes_digits(b2);
    lemma_hex_of_bytes_digits(b3);
    lemma_hex_of_bytes_digits(b4);
    assert(s.len() == 36);
    assert(s[8] == 45 && s[13] == 45 && s[18] == 45 && s[23] == 45);
    lemma_hex_of_bytes_props(b);
    lemma_hex_of_bytes_digits(b);
    assert(b =~= ((b0 + b1) + b2) + b3 + b4);
    lemma_hex_of_bytes_concat(b0, b1);
    lemma_hex_of_bytes_concat(b0 + b1, b2);
    lemma_hex_of_bytes_concat((b0 + b1) + b2, b3);
    lemma_hex_of_bytes_concat(((b0 + b1) + b2) + b3, b4);
    assert(hex_of_bytes(b)
        == ((hex_of_bytes(b0) + hex_of_bytes(b1)) + hex_of_bytes(b2)) + hex_of_bytes(b3)
        + hex_of_bytes(b4)) by {
        assert(((b0 + b1) + b2) + b3 + b4 == b);
    }
    assert(uuid_strip_hyphens(s) =~= hex_of_bytes(b));
    assert(uuid_hyph_wf(s));
    assert(!uuid_simple_wf(s));
    assert(uuid_digits(s) == uuid_strip_hyphens(s));
    assert forall|i: int| 0 <= i < 16 implies uuid_bytes_of_text(s)[i] == b[i] by {
        lemma_hex_digit_lower_val(b[i] as int / 16);
        lemma_hex_digit_lower_val(b[i] as int % 16);
        assert(uuid_digits(s)[2 * i] == hex_digit_lower(b[i] as int / 16));
        assert(uuid_digits(s)[2 * i + 1] == hex_digit_lower(b[i] as int % 16));
    }
    assert(uuid_bytes_of_text(s) =~= b);
    assert forall|j: int| 0 <= j < s.len() implies s[j] != 32 && s[j] != 10 by {
        if j != 8 && j != 13 && j != 18 && j != 23 {
            assert(uuid_strip_hyphens(s)[strip_index(j)] == s[j]);
            assert(is_hex_digit(s[j]));
        }
    }
}

/// Where a digit position of hyphenated text lands after the hyphens are
/// removed.
spec fn strip_index(j: int) -> int {
    if j < 8 {
        j
    } else if j < 13 {
        j - 1
    } else if j < 18 {
        j - 2
    } else if j < 23 {
        j - 3
    } else {
        j - 4
    }
}

} // verus!

//! The link-set loader: raw record text to a `LinkSet`.  The first
//! non-empty line names the commit the set was captured against; every
//! further non-empty line is one link.  A single malformed line refuses the
//! whole set — no partial result survives.

use vstd::prelude::*;
use crate::bytes::drop_blank;
use crate::bytes::drop_blank_lines;
use crate::bytes::split_bytes;
use crate::bytes::spec_split;
use crate::bytes::views_of;
use crate::ids::ObjectId;
use crate::ids::oid_bytes_of_text;
use crate::ids::oid_text_wf;
use crate::ids::parse_object_id;
use crate::parse::Link;
use crate::parse::LinkV;
use crate::parse::ParseError;
use crate::parse::link_v_wf;
use crate::parse::spec_parse_line;

verus! {

/// Why a record document was refused.
#[derive(Debug, Clone, Copy, PartialEq, Eq, Structural)]
pub enum LoadError {
    /// The document has no non-empty line.
    MissingHeader,
    /// The first non-empty line does not name a commit.
    InvalidHeaderCommit,
    /// A link line was malformed; the whole set is refused.
    Line(ParseError),
}

/// A loaded link set: the commit it was captured against, and its links in
/// document order.
#[derive(Debug, PartialEq, Eq)]
pub struct LinkSet {
    pub previous_commit: ObjectId,
    pub links: Vec<Link>,
}

/// The mathematical value of a `LinkSet`.
#[verifier::ext_equal]
pub struct LinkSetV {
    pub previous_commit: Seq<u8>,
    pub links: Seq<LinkV>,
}

pub open spec fn link_views(ls: Seq<Link>) -> Seq<LinkV> {
    ls.map_values(|l: Link| l@)
}

impl View for LinkSet {
    type V = LinkSetV;

    open spec fn view(&self) -> LinkSetV {
        LinkSetV { previous_commit: self.previous_commit@, links: link_views(self.links@) }
    }
}

pub open spec fn link_set_v_wf(s: LinkSetV) -> bool {
    s.previous_commit.len() == 20 && forall|i: int| 0 <= i < s.links.len() ==> link_v_wf(
        #[trigger] s.links[i],
    )
}

impl LinkSet {
    pub open spec fn wf(&self) -> bool {
        link_set_v_wf(self@)
    }
}

/// What a sequence of link lines means: every line parsed, or the first
/// error.
pub open spec fn links_of_lines(lines: Seq<Seq<u8>>) -> Result<Seq<LinkV>, ParseError>
    decreases lines.len(),
{
    if lines.len() == 0 {
        Ok(Seq::empty())
    } else {
        match spec_parse_line(lines[0]) {
            Err(e) => Err(e),
            Ok(l) => match links_of_lines(lines.skip(1)) {
                Err(e) => Err(e),
                Ok(rest) => Ok(seq![l] + rest),
            },
        }
    }
}

/// What record text means: non-empty lines, a commit header, then links —
/// all or nothing.
pub open spec fn spec_read_links(content: Seq<u8>) -> Result<LinkSetV, LoadError> {
    let lines = drop_blank(spec_split(content, 10));
    if lines.len() == 0 {
        Err(LoadError::MissingHeader)
    } else if !oid_text_wf(lines[0]) {
        Err(LoadError::InvalidHeaderCommit)
    } else {
        match links_of_lines(lines.skip(1)) {
            Err(e) => Err(LoadError::Line(e)),
            Ok(ls) => Ok(LinkSetV { previous_commit: oid_bytes_of_text(lines[0]), links: ls }),
        }
    }
}

/// Reads record text as a `LinkSet`, or refuses the whole document.
pub fn read_links(content: &Vec<u8>) -> (r: Result<LinkSet, LoadError>)
    ensures
        match r {
            Ok(s) => spec_read_links(content@) == Ok::<LinkSetV, LoadError>(s@) && s.wf(),
            Err(e) => spec_read_links(content@) == Err::<LinkSetV, LoadError>(e),
        },
{
    let raw = split_bytes(content, 10);
    let lines = drop_blank_lines(raw);
    let ghost lv = views_of(lines@);
    if lines.len() == 0 {
        return Err(LoadError::MissingHeader);
    }
    let previous_commit = match parse_object_id(&lines[0]) {
        None => {
            return Err(LoadError::InvalidHeaderCommit);
        },
        Some(p) => p,
    };
    let mut links: Vec<Link> = Vec::new();
    let mut i: usize = 1;
    proof {
        assert(lv.skip(1).skip(0) =~= lv.skip(1));
        assert(link_views(links@) =~= Seq::<LinkV>::empty());
    }
    while i < lines.len()
        invariant
            1 <= i <= lv.len(),
            lv == views_of(lines@),
            lv == drop_blank(spec_split(content@, 10)),
            oid_text_wf(lv[0]),
            lines@.len() == lv.len(),
            forall|k: int| 0 <= k < links@.len() ==> link_v_wf(#[trigger] link_views(links@)[k]),
            match links_of_lines(lv.skip(i as int)) {
                Ok(rest) => links_of_lines(lv.skip(1)) == Ok::<Seq<LinkV>, ParseError>(
                    link_views(links@) + rest,
                ),
                Err(e) => links_of_lines(lv.skip(1)) == Err::<Seq<LinkV>, ParseError>(e),
            },
        decreases lv.len() - i,
    {
        proof {
            assert(lv.skip(i as int).len() > 0);
            assert(lv.skip(i as int)[0] == lv[i as int]);
            assert(lv.skip(i as int).skip(1) =~= lv.skip(i as int + 1));
            assert(lv[i as int] == lines@[i as int]@);
        }
        let link = match Link::from_line(&lines[i]) {
            Err(e) => {
                return Err(LoadError::Line(e));
            },
            Ok(l) => l,
        };
        let ghost old_links = links@;
        links.push(link);
        proof {
            assert(link_views(links@) =~= link_views(old_links) + seq![link@]);
            match links_of_lines(lv.skip(i as int + 1)) {
                Ok(rest) => {
                    assert(links_of_lines(lv.skip(i as int)) == Ok::<Seq<LinkV>, ParseError>(
                        seq![link@] + rest,
                    ));
                    assert(link_views(old_links) + (seq![link@] + rest)
                        =~= link_views(links@) + rest);
                },
                Err(_) => {
                },
            }
        }
        i = i + 1;
    }
    proof {
        assert(lv.skip(i as int) =~= Seq::<Seq<u8>>::empty());
        assert(links_of_lines(lv.skip(i as int)) == Ok::<Seq<LinkV>, ParseError>(Seq::empty()));
        assert(link_views(links@) + Seq::<LinkV>::empty() =~= link_views(links@));
    }
    let set = LinkSet { previous_commit, links };
    proof {
        assert(spec_read_links(content@) == Ok::<LinkSetV, LoadError>(set@)) by {
            assert(set@.links =~= link_views(links@));
        }
    }
    Ok(set)
}

} // verus!

//! The header of a page: the type tag, the id, the LSN and the parent, then the
//! next and the previous page of a leaf, then the number of items.
use crate::bytes::{
    be_bytes, be_decoding, lemma_be_bytes_len, lemma_be_decoding_bound, lemma_be_roundtrip,
    lemma_pow_256_widths, ByteReader, IoError,
};
use crate::commontypes::{LsnError, PageId, PageLsn};
use crate::page::{BodyView, PageError, PageView};
use crate::traits::Serializable;
use vstd::prelude::*;

verus! {

/// What every header starts with, behind its tag.
pub struct IdentityView {
    pub page_id: PageId,
    pub last_update: Option<u64>,
    pub parent: Option<PageId>,
}

/// The links between leaves. An internal page has none.
pub struct LinksView {
    pub next: Option<PageId>,
    pub prev: Option<PageId>,
}

/// What a header says behind its tag.
pub struct HeaderView {
    pub identity: IdentityView,
    pub links: LinksView,
    pub num_items: nat,
}

impl PageView {
    pub open spec fn identity(self) -> IdentityView {
        IdentityView {
            page_id: self.page_id,
            last_update: self.last_update,
            parent: self.parent,
        }
    }

    pub open spec fn links(self) -> LinksView {
        match self.body {
            BodyView::Leaf { next, prev, .. } => LinksView { next, prev },
            BodyView::Internal { .. } => LinksView { next: None, prev: None },
        }
    }

    /// The bytes of the header.
    pub open spec fn header(self) -> Seq<u8> {
        seq![self.tag()] + identity_bytes(self.identity()) + links_bytes(
            self.body is Leaf,
            self.links(),
        ) + be_bytes((self.num_items() as u16) as nat, 2)
    }
}

pub open spec fn identity_bytes(v: IdentityView) -> Seq<u8> {
    PageId::encoding(v.page_id) + PageLsn::encoding(v.last_update) + Option::<PageId>::encoding(
        v.parent,
    )
}

pub open spec fn links_bytes(leaf: bool, v: LinksView) -> Seq<u8> {
    if leaf {
        Option::<PageId>::encoding(v.next) + Option::<PageId>::encoding(v.prev)
    } else {
        Seq::empty()
    }
}

/// What the front of a header is read as.
#[verifier::opaque]
pub open spec fn identity_decoding(s: Seq<u8>) -> Result<(IdentityView, int), PageError> {
    match PageId::decoding(s) {
        Err(e) => Err(PageError::IoError(e)),
        Ok((page_id, a)) => match PageLsn::decoding(s.skip(a)) {
            Err(e) => Err(PageError::LsnError(e)),
            Ok((last_update, b)) => match Option::<PageId>::decoding(s.skip(a + b)) {
                Err(e) => Err(PageError::IoError(e)),
                Ok((parent, c)) => Ok((IdentityView { page_id, last_update, parent }, a + b + c)),
            },
        },
    }
}

/// What the links between leaves are read as.
#[verifier::opaque]
pub open spec fn links_decoding(leaf: bool, s: Seq<u8>) -> Result<(LinksView, int), PageError> {
    if !leaf {
        Ok((LinksView { next: None, prev: None }, 0))
    } else {
        match Option::<PageId>::decoding(s) {
            Err(e) => Err(PageError::IoError(e)),
            Ok((next, a)) => match Option::<PageId>::decoding(s.skip(a)) {
                Err(e) => Err(PageError::IoError(e)),
                Ok((prev, b)) => Ok((LinksView { next, prev }, a + b)),
            },
        }
    }
}

/// What a header is read as, from behind its tag.
#[verifier::opaque]
pub open spec fn header_decoding(leaf: bool, s: Seq<u8>) -> Result<(HeaderView, int), PageError> {
    match identity_decoding(s) {
        Err(e) => Err(e),
        Ok((identity, a)) => match links_decoding(leaf, s.skip(a)) {
            Err(e) => Err(e),
            Ok((links, b)) => match be_decoding(s.skip(a + b), 2) {
                Err(e) => Err(PageError::IoError(e)),
                Ok((num_items, c)) => Ok((HeaderView { identity, links, num_items }, a + b + c)),
            },
        },
    }
}

/// The size of an encoded optional page id.
pub open spec fn link_size(link: Option<PageId>) -> nat {
    Option::<PageId>::size(link)
}

proof fn lemma_identity_len(v: IdentityView)
    ensures
        identity_bytes(v).len() == 16 + link_size(v.parent),
{
    PageId::law_size_is_exact(v.page_id);
    PageLsn::law_size_is_exact(v.last_update);
    Option::<PageId>::law_size_is_exact(v.parent);
}

/// A header is as long as its parts.
pub proof fn lemma_header_len(v: PageView)
    ensures
        v.header().len() == 19 + link_size(v.parent) + match v.body {
            BodyView::Leaf { next, prev, .. } => link_size(next) + link_size(prev),
            BodyView::Internal { .. } => 0,
        },
{
    lemma_identity_len(v.identity());
    lemma_be_bytes_len((v.num_items() as u16) as nat, 2);
    if let BodyView::Leaf { next, prev, .. } = v.body {
        Option::<PageId>::law_size_is_exact(next);
        Option::<PageId>::law_size_is_exact(prev);
    }
}

/// What a header holds.
pub(crate) struct Header {
    pub(crate) page_id: PageId,
    pub(crate) last_update: PageLsn,
    pub(crate) parent: Option<PageId>,
    pub(crate) next: Option<PageId>,
    pub(crate) prev: Option<PageId>,
    pub(crate) num_items: usize,
}

impl Header {
    pub(crate) open spec fn view(&self) -> HeaderView {
        HeaderView {
            identity: IdentityView {
                page_id: self.page_id,
                last_update: self.last_update.deep_view(),
                parent: self.parent.deep_view(),
            },
            links: LinksView { next: self.next.deep_view(), prev: self.prev.deep_view() },
            num_items: self.num_items as nat,
        }
    }

    /// Reads what every header starts with.
    fn read_identity(r: &mut ByteReader<'_>) -> (out: Result<
        (PageId, PageLsn, Option<PageId>),
        PageError,
    >)
        ensures
            match identity_decoding(old(r)@) {
                Ok((v, used)) => {
                    &&& out is Ok
                    &&& out->Ok_0.0 == v.page_id
                    &&& out->Ok_0.1.deep_view() == v.last_update
                    &&& out->Ok_0.2.deep_view() == v.parent
                    &&& 0 <= used <= old(r)@.len()
                    &&& final(r)@ == old(r)@.skip(used)
                },
                Err(e) => out is Err && out->Err_0 == e,
            },
    {
        reveal(identity_decoding);
        let ghost s = r@;
        proof {
            PageId::law_decoding_within_input(s);
        }
        let page_id = match PageId::deserialize(r) {
            Ok(x) => x,
            Err(e) => return Err(PageError::IoError(e)),
        };
        let ghost a: int = PageId::decoding(s)->Ok_0.1;
        proof {
            PageLsn::law_decoding_within_input(s.skip(a));
        }
        let last_update = match PageLsn::deserialize(r) {
            Ok(x) => x,
            Err(e) => return Err(PageError::LsnError(e)),
        };
        let ghost b: int = PageLsn::decoding(s.skip(a))->Ok_0.1;
        assert(r@ == s.skip(a + b)) by {
            assert(s.skip(a).skip(b) =~= s.skip(a + b));
        }
        proof {
            Option::<PageId>::law_decoding_within_input(s.skip(a + b));
        }
        let parent = match Option::<PageId>::deserialize(r) {
            Ok(x) => x,
            Err(e) => return Err(PageError::IoError(e)),
        };
        let ghost c: int = Option::<PageId>::decoding(s.skip(a + b))->Ok_0.1;
        assert(r@ == s.skip(a + b + c)) by {
            assert(s.skip(a + b).skip(c) =~= s.skip(a + b + c));
        }
        Ok((page_id, last_update, parent))
    }

    /// Reads the links between leaves.
    fn read_links(leaf: bool, r: &mut ByteReader<'_>) -> (out: Result<
        (Option<PageId>, Option<PageId>),
        PageError,
    >)
        ensures
            match links_decoding(leaf, old(r)@) {
                Ok((v, used)) => {
                    &&& out is Ok
                    &&& out->Ok_0.0.deep_view() == v.next
                    &&& out->Ok_0.1.deep_view() == v.prev
                    &&& 0 <= used <= old(r)@.len()
                    &&& final(r)@ == old(r)@.skip(used)
                },
                Err(e) => out is Err && out->Err_0 == e,
            },
    {
        reveal(links_decoding);
        let ghost s = r@;
        if !leaf {
            assert(s.skip(0) =~= s);
            return Ok((None, None));
        }
        proof {
            Option::<PageId>::law_decoding_within_input(s);
        }
        let next = match Option::<PageId>::deserialize(r) {
            Ok(x) => x,
            Err(e) => return Err(PageError::IoError(e)),
        };
        let ghost a: int = Option::<PageId>::decoding(s)->Ok_0.1;
        proof {
            Option::<PageId>::law_decoding_within_input(s.skip(a));
        }
        let prev = match Option::<PageId>::deserialize(r) {
            Ok(x) => x,
            Err(e) => return Err(PageError::IoError(e)),
        };
        let ghost b: int = Option::<PageId>::decoding(s.skip(a))->Ok_0.1;
        assert(r@ == s.skip(a + b)) by {
            assert(s.skip(a).skip(b) =~= s.skip(a + b));
        }
        Ok((next, prev))
    }

    /// Reads what follows the tag.
    pub(crate) fn read(leaf: bool, r: &mut ByteReader<'_>) -> (out: Result<Header, PageError>)
        ensures
            match header_decoding(leaf, old(r)@) {
                Ok((h, used)) => {
                    &&& out is Ok
                    &&& out->Ok_0@ == h
                    &&& h.num_items <= u16::MAX
                    &&& 0 <= used <= old(r)@.len()
                    &&& final(r)@ == old(r)@.skip(used)
                },
                Err(e) => out is Err && out->Err_0 == e,
            },
    {
        reveal(header_decoding);
        let ghost s = r@;
        let (page_id, last_update, parent) = match Header::read_identity(r) {
            Ok(x) => x,
            Err(e) => return Err(e),
        };
        let ghost a: int = identity_decoding(s)->Ok_0.1;
        let (next, prev) = match Header::read_links(leaf, r) {
            Ok(x) => x,
            Err(e) => return Err(e),
        };
        let ghost b: int = links_decoding(leaf, s.skip(a))->Ok_0.1;
        assert(r@ == s.skip(a + b)) by {
            assert(s.skip(a).skip(b) =~= s.skip(a + b));
        }
        proof {
            lemma_pow_256_widths();
        }
        match r.read_be(2) {
            Ok(n) => {
                assert(r@ == s.skip(a + b + 2)) by {
                    assert(s.skip(a + b).skip(2) =~= s.skip(a + b + 2));
                }
                Ok(Header { page_id, last_update, parent, next, prev, num_items: n as usize })
            },
            Err(e) => Err(PageError::IoError(e)),
        }
    }
}

/// An LSN that is read is not zero.
pub proof fn lemma_read_lsn_is_valid(leaf: bool, s: Seq<u8>)
    ensures
        header_decoding(leaf, s) matches Ok((h, _)) ==> PageLsn::valid(h.identity.last_update),
{
    reveal(header_decoding);
    reveal(identity_decoding);
    if let Ok((_, a)) = PageId::decoding(s) {
        lemma_pow_256_widths();
        lemma_be_decoding_bound(s.skip(a), 8);
    }
}

/// What is left behind each of three parts.
proof fn lemma_three_parts(a: Seq<u8>, b: Seq<u8>, c: Seq<u8>, tail: Seq<u8>)
    ensures
        ({
            let s = a + b + c + tail;
            &&& s == a + (b + (c + tail))
            &&& s.skip(a.len() as int) == b + (c + tail)
            &&& s.skip(a.len() as int + b.len() as int) == c + tail
        }),
{
    let s = a + b + c + tail;
    assert(s =~= a + (b + (c + tail)));
    assert(s.skip(a.len() as int) =~= b + (c + tail));
    assert(s.skip(a.len() as int + b.len() as int) =~= c + tail);
}

proof fn lemma_identity_roundtrip(v: IdentityView, tail: Seq<u8>)
    requires
        PageLsn::valid(v.last_update),
    ensures
        identity_decoding(identity_bytes(v) + tail) == Ok::<(IdentityView, int), PageError>(
            (v, identity_bytes(v).len() as int),
        ),
{
    reveal(identity_decoding);
    let id = PageId::encoding(v.page_id);
    let lsn = PageLsn::encoding(v.last_update);
    let parent = Option::<PageId>::encoding(v.parent);
    let s = identity_bytes(v) + tail;
    let a = id.len() as int;
    let b = lsn.len() as int;
    let c = parent.len() as int;
    lemma_three_parts(id, lsn, parent, tail);
    assert(PageId::decoding(s) == Ok::<(PageId, int), IoError>((v.page_id, a))) by {
        PageId::law_roundtrip(v.page_id, lsn + (parent + tail));
    }
    assert(PageLsn::decoding(s.skip(a)) == Ok::<(Option<u64>, int), LsnError>((v.last_update, b)))
        by {
        PageLsn::law_roundtrip(v.last_update, parent + tail);
    }
    assert(Option::<PageId>::decoding(s.skip(a + b)) == Ok::<(Option<PageId>, int), IoError>(
        (v.parent, c),
    )) by {
        Option::<PageId>::law_roundtrip(v.parent, tail);
    }
}

proof fn lemma_links_roundtrip(v: PageView, tail: Seq<u8>)
    ensures
        ({
            let leaf = v.body is Leaf;
            links_decoding(leaf, links_bytes(leaf, v.links()) + tail) == Ok::<
                (LinksView, int),
                PageError,
            >((v.links(), links_bytes(leaf, v.links()).len() as int))
        }),
{
    reveal(links_decoding);
    if v.body is Leaf {
        let next = Option::<PageId>::encoding(v.links().next);
        let prev = Option::<PageId>::encoding(v.links().prev);
        let s = links_bytes(true, v.links()) + tail;
        let a = next.len() as int;
        let b = prev.len() as int;
        assert(Option::<PageId>::decoding(s) == Ok::<(Option<PageId>, int), IoError>(
            (v.links().next, a),
        )) by {
            Option::<PageId>::law_roundtrip(v.links().next, prev + tail);
            assert(s =~= next + (prev + tail));
        }
        assert(Option::<PageId>::decoding(s.skip(a)) == Ok::<(Option<PageId>, int), IoError>(
            (v.links().prev, b),
        )) by {
            Option::<PageId>::law_roundtrip(v.links().prev, tail);
            assert(s.skip(a) =~= prev + tail);
        }
    }
}

/// What the header of a page says.
pub open spec fn header_of(v: PageView) -> HeaderView {
    HeaderView { identity: v.identity(), links: v.links(), num_items: v.num_items() }
}

/// A header is read back as it was written.
pub proof fn lemma_header_roundtrip(v: PageView, tail: Seq<u8>)
    requires
        PageLsn::valid(v.last_update),
        v.num_items() <= u16::MAX,
    ensures
        v.header().len() > 0,
        (v.header() + tail)[0] == v.tag(),
        header_decoding(v.body is Leaf, (v.header() + tail).skip(1)) == Ok::<
            (HeaderView, int),
            PageError,
        >((header_of(v), v.header().len() - 1)),
{
    reveal(header_decoding);
    let leaf = v.body is Leaf;
    let identity = identity_bytes(v.identity());
    let links = links_bytes(leaf, v.links());
    let count = be_bytes((v.num_items() as u16) as nat, 2);
    let s = (v.header() + tail).skip(1);
    assert(s =~= identity + links + count + tail);
    lemma_three_parts(identity, links, count, tail);
    lemma_identity_roundtrip(v.identity(), links + (count + tail));
    lemma_links_roundtrip(v, count + tail);
    lemma_pow_256_widths();
    lemma_be_roundtrip(v.num_items(), 2, tail);
}

} // verus!

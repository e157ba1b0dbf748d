//! The current layout of a post: content tagged as plain text or ciphertext.

use crate::error::Error;
use crate::pallet::AccountId;
use crate::scale::{
    decode_bytes, encode_bytes, lemma_scale_prefix, lemma_scale_prefix_is_encoding, scale_bytes,
    scale_prefix,
};
use crate::v1;
use crate::v1::{author_from_bytes, ACCOUNT_WIDTH};
use vstd::bytes::{
    lemma_auto_spec_u64_to_from_le_bytes, spec_u64_from_le_bytes, spec_u64_to_le_bytes,
    u64_to_le_bytes,
};
use vstd::prelude::*;
use vstd::slice::slice_subrange;

verus! {

/// The tag byte of ciphertext content. Stored data depends on it: it never changes.
pub const TAG_ENCRYPTED: u8 = 0;

/// The tag byte of plain content. Stored data depends on it: it never changes.
pub const TAG_PLAIN: u8 = 1;

/// What a post carries: bytes to read as they are, or ciphertext.
#[derive(Clone, Debug, PartialEq, Eq)]
pub enum Content {
    Encrypted(Vec<u8>),
    Plain(Vec<u8>),
}

/// The mathematical value of a `Content`.
pub enum ContentView {
    Encrypted(Seq<u8>),
    Plain(Seq<u8>),
}

impl ContentView {
    /// The tag byte that stands for the variant.
    pub open spec fn tag(self) -> u8 {
        match self {
            ContentView::Encrypted(_) => TAG_ENCRYPTED,
            ContentView::Plain(_) => TAG_PLAIN,
        }
    }

    /// The bytes that the variant carries.
    pub open spec fn payload(self) -> Seq<u8> {
        match self {
            ContentView::Encrypted(bytes) => bytes,
            ContentView::Plain(bytes) => bytes,
        }
    }

    /// The content that a tag byte and a payload stand for, if the tag is known.
    pub open spec fn from_tag(tag: u8, payload: Seq<u8>) -> Option<ContentView> {
        if tag == TAG_ENCRYPTED {
            Some(ContentView::Encrypted(payload))
        } else if tag == TAG_PLAIN {
            Some(ContentView::Plain(payload))
        } else {
            None
        }
    }
}

impl View for Content {
    type V = ContentView;

    open spec fn view(&self) -> ContentView {
        match self {
            Content::Encrypted(bytes) => ContentView::Encrypted(bytes@),
            Content::Plain(bytes) => ContentView::Plain(bytes@),
        }
    }
}

impl Content {
    /// The tag byte under which the variant is stored.
    pub fn tag(&self) -> (out: u8)
        ensures
            out == self@.tag(),
    {
        match self {
            Content::Encrypted(_) => TAG_ENCRYPTED,
            Content::Plain(_) => TAG_PLAIN,
        }
    }

    /// The bytes that the variant carries.
    pub fn payload(&self) -> (out: &Vec<u8>)
        ensures
            out@ == self@.payload(),
    {
        match self {
            Content::Encrypted(bytes) => bytes,
            Content::Plain(bytes) => bytes,
        }
    }

    /// Builds the content that a stored tag byte and payload stand for.
    /// An unknown tag gives `None`.
    pub fn from_tag(tag: u8, payload: Vec<u8>) -> (out: Option<Content>)
        ensures
            match out {
                Some(content) => ContentView::from_tag(tag, payload@) == Some(content@),
                None => ContentView::from_tag(tag, payload@) is None,
            },
    {
        if tag == TAG_ENCRYPTED {
            Some(Content::Encrypted(payload))
        } else if tag == TAG_PLAIN {
            Some(Content::Plain(payload))
        } else {
            None
        }
    }
}

/// A post as it is stored now.
#[derive(Clone, Debug, PartialEq, Eq)]
pub struct Post {
    pub title: Vec<u8>,
    pub content: Content,
    pub author: AccountId,
}

/// The mathematical value of a post.
pub struct PostView {
    pub title: Seq<u8>,
    pub content: ContentView,
    pub author: AccountId,
}

impl View for Post {
    type V = PostView;

    open spec fn view(&self) -> PostView {
        PostView { title: self.title@, content: self.content@, author: self.author }
    }
}

/// A post can be encoded when both byte strings fit a 32-bit length prefix.
pub open spec fn encodable(p: PostView) -> bool {
    p.title.len() <= u32::MAX && p.content.payload().len() <= u32::MAX
}

/// The current layout: title, one tag byte, the content's payload, then the
/// author as eight little-endian bytes.
pub open spec fn encoding(p: PostView) -> Seq<u8> {
    scale_bytes(p.title) + seq![p.content.tag()] + scale_bytes(p.content.payload())
        + spec_u64_to_le_bytes(p.author)
}

/// The bytes are the encoding of the post.
pub open spec fn encodes(p: PostView, bytes: Seq<u8>) -> bool {
    encodable(p) && encoding(p) == bytes
}

/// The post that a byte string holds in the current layout: the one whose
/// encoding it is, if it is the encoding of one.
pub open spec fn decoding(bytes: Seq<u8>) -> Option<PostView> {
    if exists|p: PostView| encodes(p, bytes) {
        Some(choose|p: PostView| encodes(p, bytes))
    } else {
        None
    }
}

/// What reading the fields one after the other yields: the title, the tag
/// byte, the payload, and eight bytes of author with nothing behind them.
spec fn parsed(bytes: Seq<u8>) -> Option<PostView> {
    match scale_prefix(bytes) {
        None => None,
        Some((title, after_title)) => if after_title.len() == 0 {
            None
        } else {
            match scale_prefix(after_title.skip(1)) {
                None => None,
                Some((payload, tail)) => match ContentView::from_tag(after_title[0], payload) {
                    None => None,
                    Some(content) => if tail.len() == ACCOUNT_WIDTH {
                        Some(PostView { title, content, author: spec_u64_from_le_bytes(tail) })
                    } else {
                        None
                    },
                },
            }
        },
    }
}

/// The post that stored bytes of unknown layout hold: read in the current
/// layout where they decode in it, else in the legacy layout and upgraded.
pub open spec fn decoding_any_layout(bytes: Seq<u8>) -> Option<PostView> {
    match decoding(bytes) {
        Some(post) => Some(post),
        None => match v1::decoding(bytes) {
            Some(legacy) => Some(upgraded(legacy)),
            None => None,
        },
    }
}

/// What a legacy post becomes: the same title and author, its content plain.
pub open spec fn upgraded(legacy: v1::PostView) -> PostView {
    PostView {
        title: legacy.title,
        content: ContentView::Plain(legacy.content),
        author: legacy.author,
    }
}

proof fn lemma_parsed_inverts_encoding(post: PostView)
    requires
        encodable(post),
    ensures
        parsed(encoding(post)) == Some(post),
{
    let payload = post.content.payload();
    let author_field = spec_u64_to_le_bytes(post.author);
    let after_title = seq![post.content.tag()] + scale_bytes(payload) + author_field;
    lemma_auto_spec_u64_to_from_le_bytes();
    assert(encoding(post) =~= scale_bytes(post.title) + after_title);
    lemma_scale_prefix(encoding(post), post.title, after_title);
    assert(after_title.skip(1) =~= scale_bytes(payload) + author_field);
    lemma_scale_prefix(after_title.skip(1), payload, author_field);
    assert(after_title[0] == post.content.tag());
}

proof fn lemma_parsed_is_encoding(bytes: Seq<u8>)
    ensures
        parsed(bytes) matches Some(post) ==> encodes(post, bytes),
{
    if let Some(post) = parsed(bytes) {
        lemma_scale_prefix_is_encoding(bytes);
        let after = scale_prefix(bytes).unwrap().1;
        lemma_scale_prefix_is_encoding(after.skip(1));
        let tail = scale_prefix(after.skip(1)).unwrap().1;
        lemma_auto_spec_u64_to_from_le_bytes();
        assert(spec_u64_to_le_bytes(spec_u64_from_le_bytes(tail)) == tail);
        assert(after =~= seq![after[0]] + after.skip(1));
        assert(bytes =~= encoding(post));
    }
}

proof fn lemma_decoding_is_parsed(bytes: Seq<u8>)
    ensures
        decoding(bytes) == parsed(bytes),
{
    lemma_parsed_is_encoding(bytes);
    if exists|p: PostView| encodes(p, bytes) {
        let p = choose|p: PostView| encodes(p, bytes);
        lemma_parsed_inverts_encoding(p);
    }
}

/// Decoding inverts encoding.
pub proof fn lemma_decoding_inverts_encoding(post: PostView)
    requires
        encodable(post),
    ensures
        decoding(encoding(post)) == Some(post),
{
    lemma_decoding_is_parsed(encoding(post));
    lemma_parsed_inverts_encoding(post);
}

/// No two posts share an encoding.
pub proof fn lemma_encoding_is_injective(p: PostView, q: PostView)
    requires
        encodable(p),
        encodable(q),
        encoding(p) == encoding(q),
    ensures
        p == q,
{
    lemma_decoding_inverts_encoding(p);
    lemma_decoding_inverts_encoding(q);
}

/// Only the encoding of a post decodes, and it decodes to that post.
pub proof fn lemma_decoding_is_encoding(bytes: Seq<u8>)
    ensures
        decoding(bytes) matches Some(post) ==> encodable(post) && bytes == encoding(post),
{
}

/// A legacy post and its upgrade differ in the content's tag alone.
pub proof fn lemma_upgrade_keeps_fields(legacy: v1::PostView)
    ensures
        upgraded(legacy).title == legacy.title,
        upgraded(legacy).author == legacy.author,
        upgraded(legacy).content == ContentView::Plain(legacy.content),
        encodable(upgraded(legacy)) <==> v1::encodable(legacy),
{
}

/// Joins the encoded fields of a post around its tag byte.
pub fn layout(title_field: &[u8], tag: u8, payload_field: &[u8], author: AccountId) -> (out: Vec<
    u8,
>)
    ensures
        out@ == title_field@ + seq![tag] + payload_field@ + spec_u64_to_le_bytes(author),
{
    let mut out: Vec<u8> = Vec::new();
    out.extend_from_slice(title_field);
    out.push(tag);
    out.extend_from_slice(payload_field);
    let author_field = u64_to_le_bytes(author);
    out.extend_from_slice(author_field.as_slice());
    assert(out@ =~= title_field@ + seq![tag] + payload_field@ + spec_u64_to_le_bytes(author));
    out
}

/// Upgrades a legacy post. Never fails: the content is carried over as plain.
pub fn upgrade(legacy: v1::Post) -> (out: Post)
    ensures
        out@ == upgraded(legacy@),
        out.title@ == legacy.title@,
        out.author == legacy.author,
        out.content@ == ContentView::Plain(legacy.content@),
{
    Post { title: legacy.title, content: Content::Plain(legacy.content), author: legacy.author }
}

impl Post {
    /// Encodes the post in the current layout. The result decodes to the post again.
    pub fn encode(&self) -> (out: Vec<u8>)
        requires
            encodable(self@),
        ensures
            out@ == encoding(self@),
            decoding(out@) == Some(self@),
    {
        let title_field = encode_bytes(&self.title);
        let tag = self.content.tag();
        let payload_field = encode_bytes(self.content.payload());
        let out = layout(title_field.as_slice(), tag, payload_field.as_slice(), self.author);
        proof {
            lemma_decoding_inverts_encoding(self@);
        }
        out
    }

    /// Decodes stored bytes whose layout is not recorded: tries the current
    /// layout first and falls back to the legacy one, upgrading what it reads.
    pub fn decode_any_layout(bytes: &[u8]) -> (out: Result<Post, Error>)
        ensures
            match out {
                Ok(post) => decoding_any_layout(bytes@) == Some(post@) && encodable(post@),
                Err(e) => e == Error::DecodeError && decoding_any_layout(bytes@) is None,
            },
    {
        match Post::decode(bytes) {
            Ok(post) => Ok(post),
            Err(_) => match v1::Post::decode(bytes) {
                Ok(legacy) => Ok(upgrade(legacy)),
                Err(e) => Err(e),
            },
        }
    }

    /// Decodes a post stored in the current layout: returns the post whose
    /// encoding the bytes are, and an error where they are the encoding of none.
    pub fn decode(bytes: &[u8]) -> (out: Result<Post, Error>)
        ensures
            match out {
                Ok(post) => decoding(bytes@) == Some(post@) && encodes(post@, bytes@),
                Err(e) => e == Error::DecodeError && decoding(bytes@) is None,
            },
    {
        proof {
            lemma_decoding_is_parsed(bytes@);
            lemma_parsed_is_encoding(bytes@);
        }
        let (title, after_title) = match decode_bytes(bytes) {
            Some(pair) => pair,
            None => { return Err(Error::DecodeError); },
        };
        if after_title.len() == 0 {
            return Err(Error::DecodeError);
        }
        let tag = after_title[0];
        let (payload, tail) = match decode_bytes(
            slice_subrange(after_title.as_slice(), 1, after_title.len()),
        ) {
            Some(pair) => pair,
            None => { return Err(Error::DecodeError); },
        };
        assert(after_title@.subrange(1, after_title@.len() as int) == after_title@.skip(1));
        let content = match Content::from_tag(tag, payload) {
            Some(content) => content,
            None => { return Err(Error::DecodeError); },
        };
        match author_from_bytes(tail.as_slice()) {
            Some(author) => Ok(Post { title, content, author }),
            None => Err(Error::DecodeError),
        }
    }
}

} // verus!

//! The legacy layout of a post: title and content as bare byte strings.

use crate::error::Error;
use crate::pallet::AccountId;
use crate::scale::{
    decode_bytes, encode_bytes, lemma_scale_prefix, lemma_scale_prefix_is_encoding, scale_bytes,
    scale_prefix,
};
use vstd::bytes::{
    lemma_auto_spec_u64_to_from_le_bytes, spec_u64_from_le_bytes, spec_u64_to_le_bytes,
    u64_from_le_bytes, u64_to_le_bytes,
};
use vstd::prelude::*;

verus! {

/// A post as the first schema stored it.
#[derive(Clone, Debug, Default, PartialEq, Eq)]
pub struct Post {
    pub title: Vec<u8>,
    pub content: Vec<u8>,
    pub author: AccountId,
}

/// The mathematical value of a legacy post.
pub struct PostView {
    pub title: Seq<u8>,
    pub content: Seq<u8>,
    pub author: AccountId,
}

impl View for Post {
    type V = PostView;

    open spec fn view(&self) -> PostView {
        PostView { title: self.title@, content: self.content@, author: self.author }
    }
}

/// Width of an encoded account id.
pub const ACCOUNT_WIDTH: usize = 8;

/// A post can be encoded when both byte strings fit a 32-bit length prefix.
pub open spec fn encodable(p: PostView) -> bool {
    p.title.len() <= u32::MAX && p.content.len() <= u32::MAX
}

/// The legacy layout: title, content, then the author as eight little-endian bytes.
pub open spec fn encoding(p: PostView) -> Seq<u8> {
    scale_bytes(p.title) + scale_bytes(p.content) + spec_u64_to_le_bytes(p.author)
}

/// The bytes are the encoding of the post.
pub open spec fn encodes(p: PostView, bytes: Seq<u8>) -> bool {
    encodable(p) && encoding(p) == bytes
}

/// The post that a byte string holds in the legacy layout: the one whose
/// encoding it is, if it is the encoding of one.
pub open spec fn decoding(bytes: Seq<u8>) -> Option<PostView> {
    if exists|p: PostView| encodes(p, bytes) {
        Some(choose|p: PostView| encodes(p, bytes))
    } else {
        None
    }
}

/// What reading the fields one after the other yields: the title, the
/// content, and eight bytes of author with nothing behind them.
spec fn parsed(bytes: Seq<u8>) -> Option<PostView> {
    match scale_prefix(bytes) {
        None => None,
        Some((title, after_title)) => match scale_prefix(after_title) {
            None => None,
            Some((content, tail)) => if tail.len() == ACCOUNT_WIDTH {
                Some(PostView { title, content, author: spec_u64_from_le_bytes(tail) })
            } else {
                None
            },
        },
    }
}

proof fn lemma_parsed_inverts_encoding(post: PostView)
    requires
        encodable(post),
    ensures
        parsed(encoding(post)) == Some(post),
{
    let author_field = spec_u64_to_le_bytes(post.author);
    let after_title = scale_bytes(post.content) + author_field;
    lemma_auto_spec_u64_to_from_le_bytes();
    assert(encoding(post) =~= scale_bytes(post.title) + after_title);
    lemma_scale_prefix(encoding(post), post.title, after_title);
    lemma_scale_prefix(after_title, post.content, author_field);
}

proof fn lemma_parsed_is_encoding(bytes: Seq<u8>)
    ensures
        parsed(bytes) matches Some(post) ==> encodes(post, bytes),
{
    if let Some(post) = parsed(bytes) {
        lemma_scale_prefix_is_encoding(bytes);
        let after = scale_prefix(bytes).unwrap().1;
        lemma_scale_prefix_is_encoding(after);
        let tail = scale_prefix(after).unwrap().1;
        lemma_auto_spec_u64_to_from_le_bytes();
        assert(spec_u64_to_le_bytes(spec_u64_from_le_bytes(tail)) == tail);
        assert(bytes =~= encoding(post));
    }
}

proof fn lemma_decoding_is_parsed(bytes: Seq<u8>)
    ensures
        decoding(bytes) == parsed(bytes),
{
    lemma_parsed_is_encoding(bytes);
    if exists|p: PostView| encodes(p, bytes) {
        let p = choose|p: PostView| encodes(p, bytes);
        lemma_parsed_inverts_encoding(p);
    }
}

/// Decoding inverts encoding.
pub proof fn lemma_decoding_inverts_encoding(post: PostView)
    requires
        encodable(post),
    ensures
        decoding(encoding(post)) == Some(post),
{
    lemma_decoding_is_parsed(encoding(post));
    lemma_parsed_inverts_encoding(post);
}

/// No two legacy posts share an encoding.
pub proof fn lemma_encoding_is_injective(p: PostView, q: PostView)
    requires
        encodable(p),
        encodable(q),
        encoding(p) == encoding(q),
    ensures
        p == q,
{
    lemma_decoding_inverts_encoding(p);
    lemma_decoding_inverts_encoding(q);
}

/// Only the encoding of a post decodes, and it decodes to that post.
pub proof fn lemma_decoding_is_encoding(bytes: Seq<u8>)
    ensures
        decoding(bytes) matches Some(post) ==> encodable(post) && bytes == encoding(post),
{
}

/// Joins the three encoded fields of a legacy post.
pub fn layout(title_field: &[u8], content_field: &[u8], author: AccountId) -> (out: Vec<u8>)
    ensures
        out@ == title_field@ + content_field@ + spec_u64_to_le_bytes(author),
{
    let mut out: Vec<u8> = Vec::new();
    out.extend_from_slice(title_field);
    out.extend_from_slice(content_field);
    let author_field = u64_to_le_bytes(author);
    out.extend_from_slice(author_field.as_slice());
    assert(out@ =~= title_field@ + content_field@ + spec_u64_to_le_bytes(author));
    out
}

/// Reads an account id from what is left of an input: exactly eight bytes,
/// little-endian.
pub fn author_from_bytes(tail: &[u8]) -> (out: Option<AccountId>)
    ensures
        out == if tail@.len() == ACCOUNT_WIDTH {
            Some(spec_u64_from_le_bytes(tail@))
        } else {
            None
        },
{
    if tail.len() == ACCOUNT_WIDTH {
        Some(u64_from_le_bytes(tail))
    } else {
        None
    }
}

impl Post {
    /// Encodes the post in the legacy layout. The result decodes to the post again.
    pub fn encode(&self) -> (out: Vec<u8>)
        requires
            encodable(self@),
        ensures
            out@ == encoding(self@),
            decoding(out@) == Some(self@),
    {
        let title_field = encode_bytes(&self.title);
        let content_field = encode_bytes(&self.content);
        let out = layout(title_field.as_slice(), content_field.as_slice(), self.author);
        proof {
            lemma_decoding_inverts_encoding(self@);
        }
        out
    }

    /// Decodes a post stored in the legacy layout: returns the post whose
    /// encoding the bytes are, and an error where they are the encoding of none.
    pub fn decode(bytes: &[u8]) -> (out: Result<Post, Error>)
        ensures
            match out {
                Ok(post) => decoding(bytes@) == Some(post@) && encodes(post@, bytes@),
                Err(e) => e == Error::DecodeError && decoding(bytes@) is None,
            },
    {
        proof {
            lemma_decoding_is_parsed(bytes@);
            lemma_parsed_is_encoding(bytes@);
        }
        let (title, after_title) = match decode_bytes(bytes) {
            Some(pair) => pair,
            None => { return Err(Error::DecodeError); },
        };
        let (content, tail) = match decode_bytes(after_title.as_slice()) {
            Some(pair) => pair,
            None => { return Err(Error::DecodeError); },
        };
        match author_from_bytes(tail.as_slice()) {
            Some(author) => Ok(Post { title, content, author }),
            None => Err(Error::DecodeError),
        }
    }
}

} // verus!

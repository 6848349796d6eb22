//! The XML tokenizer that turns the text of a document into lexical events.

use vstd::prelude::*;
use xml::common::Position as _;
use xml::reader::{EventReader, XmlEvent};
use crate::error::Position;
use crate::event::{token_views, Attribute, Event, EventView, Token, TokenView};

verus! {

/// A tokenizer at work on a document that is held in memory: an `xml::reader::EventReader`
/// over the bytes of the document. What the tokenizer is made of is hidden from the proofs;
/// they know it by [`pending`] alone.
#[verifier::external_body]
pub struct Tokenizer<'a> {
    reader: EventReader<&'a [u8]>,
}

/// The tokens that a tokenizer has yet to deliver, the next one first, up to and including the
/// one that ends its work: the end of the document, or a failure.
pub uninterp spec fn pending(tokenizer: Tokenizer) -> Seq<TokenView>;

/// The tokens that a tokenizer delivers of a document, from the first to the one that ends
/// its work.
pub uninterp spec fn document_tokens(source: Seq<u8>) -> Seq<TokenView>;

/// Whether an event ends the work of a tokenizer.
pub open spec fn is_last(event: EventView) -> bool {
    event is EndDocument || event is Failure
}

/// Whether a sequence of tokens runs to the end of a tokenizer's work: it ends with the end of
/// the document or with a failure, and neither comes earlier.
pub open spec fn complete(tokens: Seq<TokenView>) -> bool {
    &&& 0 < tokens.len()
    &&& is_last(tokens.last().event)
    &&& forall|i: int| 0 <= i < tokens.len() - 1 ==> !is_last(#[trigger] tokens[i].event)
}

/// Sets a tokenizer to work on `source`, by `EventReader::new`. The tokenizer has read nothing
/// yet, so what it has to deliver are the tokens of the document. Its work comes to an end:
/// the tokenizer delivers the end of the document or a failure once, as the last of its
/// tokens, and from then on only repeats it.
#[verifier::external_body]
fn open<'a>(source: &'a [u8]) -> (tokenizer: Tokenizer<'a>)
    ensures
        pending(tokenizer) == document_tokens(source@),
        complete(pending(tokenizer)),
{
    Tokenizer { reader: EventReader::new(source) }
}

/// Pulls the next event, by `EventReader::next`, and pairs it with the place that the
/// tokenizer reports after it, by `EventReader::position`. Of an element's name and of its
/// attributes' names the local part is kept; a failure is kept as the text that it displays
/// as. As long as the tokenizer has something to deliver, this is the first of it, and the
/// rest is left to deliver.
#[verifier::external_body]
fn next_token(tokenizer: &mut Tokenizer) -> (token: Token)
    ensures
        pending(*old(tokenizer)).len() > 0 ==> token@ == pending(*old(tokenizer))[0] && pending(
            *final(tokenizer),
        ) == pending(*old(tokenizer)).skip(1),
{
    let event = match tokenizer.reader.next() {
        Ok(XmlEvent::StartDocument { .. }) => Event::StartDocument,
        Ok(XmlEvent::ProcessingInstruction { .. }) => Event::ProcessingInstruction,
        Ok(XmlEvent::StartElement { name, attributes, .. }) => Event::StartElement {
            name: name.local_name,
            attributes: attributes.into_iter().map(|a| Attribute::new(a.name.local_name, a.value)).collect(),
        },
        Ok(XmlEvent::EndElement { .. }) => Event::EndElement,
        Ok(XmlEvent::EndDocument) => Event::EndDocument,
        Ok(_) => Event::Other,
        Err(e) => Event::Failure { message: e.to_string() },
    };
    let at = tokenizer.reader.position();
    Token::new(event, Position::new(at.row, at.column))
}

fn ends(token: &Token) -> (last: bool)
    ensures
        last == is_last(token@.event),
{
    match &token.event {
        Event::EndDocument => true,
        Event::Failure { .. } => true,
        _ => false,
    }
}

/// Runs the tokenizer over `source` and collects the tokens of the document, up to and
/// including the end of the document or the failure that ends the tokenizer's work.
pub fn tokenize(source: &[u8]) -> (tokens: Vec<Token>)
    ensures
        token_views(tokens@) == document_tokens(source@),
        complete(document_tokens(source@)),
{
    let mut tokenizer = open(source);
    let mut tokens: Vec<Token> = Vec::new();
    loop
        invariant
            complete(pending(tokenizer)),
            complete(document_tokens(source@)),
            token_views(tokens@) + pending(tokenizer) == document_tokens(source@),
        decreases pending(tokenizer).len(),
    {
        let token = next_token(&mut tokenizer);
        let last = ends(&token);
        tokens.push(token);
        if last {
            return tokens;
        }
    }
}

} // verus!
